//! What a run says about itself: the summary of a failed run, and the JSON lines
//! that other programs read.

use vstd::prelude::*;

use crate::cli::Reporter;
use crate::exec;
use crate::exec::{Elapsed, ElapsedView, JobResult, ProgressView, Progress, ResultKind, ResultView};
use crate::text;

verus! {

// ---------------------------------------------------------------------------
// The summary
// ---------------------------------------------------------------------------
/// The sign and the words for a result.
pub open spec fn outcome(kind: ResultKind) -> (Seq<char>, Seq<char>) {
    match kind {
        ResultKind::Passed => ("✓"@, "ok"@),
        ResultKind::Failed(c) => ("✗"@, "exit "@ + text::decimal(c as int)),
        ResultKind::Skipped => ("⊘"@, "skipped"@),
    }
}

/// The labels of the results.
pub open spec fn labels(results: Seq<ResultView>) -> Seq<Seq<char>> {
    Seq::new(results.len(), |i: int| results[i].label)
}

/// How wide the column of the result's words is.
pub const STATUS_WIDTH: usize = 10;

/// The line for a result, its label filled up to a width.
pub open spec fn result_line(r: ResultView, width: nat) -> Seq<char> {
    let (sign, words) = outcome(r.kind);
    let dur = match r.dur {
        Some(d) => d.seconds,
        None => Seq::empty(),
    };
    "  "@ + sign + " "@ + text::padded(r.label, width) + "  "@ + text::padded(
        words,
        STATUS_WIDTH as nat,
    ) + " "@ + dur
}

/// The lines for the results.
pub open spec fn result_lines(results: Seq<ResultView>) -> Seq<Seq<char>> {
    let width = text::widest(labels(results), results.len() as int);
    Seq::new(results.len(), |i: int| result_line(results[i], width))
}

/// The summary of a run that failed.
pub open spec fn summary(root: Seq<char>, p: ProgressView) -> Seq<Seq<char>> {
    let reason: Seq<Seq<char>> = match p.runner_error {
        Some(m) => seq!["  "@ + m, Seq::empty()],
        None => Seq::empty(),
    };
    seq![Seq::empty(), "✗ "@ + root + " failed"@, Seq::empty()] + result_lines(p.results)
        + seq![Seq::empty()] + reason + seq!["exit code: "@ + text::decimal(exec::run_code(p))]
}

fn line_of(r: &JobResult, width: usize) -> (s: String)
    ensures
        s@ == result_line(r@, width as nat),
{
    let words = match r.kind {
        ResultKind::Passed => "ok".to_string(),
        ResultKind::Failed(c) => text::join2("exit ", text::number(c).as_str()),
        ResultKind::Skipped => "skipped".to_string(),
    };
    let sign = match r.kind {
        ResultKind::Passed => "✓",
        ResultKind::Failed(_) => "✗",
        ResultKind::Skipped => "⊘",
    };
    let mut line = text::join3("  ", sign, " ");
    line.append(text::pad(r.label.as_str(), width).as_str());
    line.append("  ");
    line.append(text::pad(words.as_str(), STATUS_WIDTH).as_str());
    line.append(" ");
    let ghost front = line@;
    match &r.dur {
        Some(d) => line.append(d.seconds.as_str()),
        None => {
            assert(front + Seq::<char>::empty() =~= front);
        },
    }
    line
}

/// The lines of the summary of a run that failed.
pub fn summary_lines(root: &str, p: &Progress) -> (r: Vec<String>)
    ensures
        text::texts(r@) == summary(root@, p@),
{
    let ghost results = p@.results;
    let mut names: Vec<String> = Vec::new();
    let mut i: usize = 0;
    while i < p.results.len()
        invariant
            i <= p.results.len(),
            results == p@.results,
            names.len() == i,
            forall|j: int| 0 <= j < i ==> (#[trigger] names@[j])@ == results[j].label,
        decreases p.results.len() - i,
    {
        names.push(p.results[i].label.clone());
        i += 1;
    }
    assert(text::texts(names@) =~= labels(results));
    let width = text::width_of(&names);
    let mut out: Vec<String> = Vec::new();
    out.push(String::new());
    out.push(text::join3("✗ ", root, " failed"));
    out.push(String::new());
    let ghost head = seq![Seq::empty(), "✗ "@ + root@ + " failed"@, Seq::empty()];
    assert(text::texts(out@) =~= head);
    let mut i: usize = 0;
    assert(head + result_lines(results).take(0) =~= head);
    while i < p.results.len()
        invariant
            i <= p.results.len(),
            results == p@.results,
            width == text::widest(labels(results), results.len() as int),
            text::texts(out@) == head + result_lines(results).take(i as int),
        decreases p.results.len() - i,
    {
        let ghost before = text::texts(out@);
        let line = line_of(&p.results[i], width);
        assert(results[i as int] == p.results@[i as int]@);
        let ghost seen = line@;
        out.push(line);
        assert(text::texts(out@) =~= before.push(seen));
        assert(result_lines(results).take(i + 1) =~= result_lines(results).take(i as int).push(
            result_lines(results)[i as int],
        ));
        i += 1;
    }
    assert(result_lines(results).take(i as int) =~= result_lines(results));
    let ghost body = head + result_lines(results);
    out.push(String::new());
    assert(text::texts(out@) =~= body + seq![Seq::<char>::empty()]);
    match &p.runner_error {
        Some(m) => {
            let ghost before = text::texts(out@);
            out.push(text::join2("  ", m.as_str()));
            out.push(String::new());
            assert(text::texts(out@) =~= before + seq!["  "@ + m@, Seq::<char>::empty()]);
        },
        None => {
            assert(text::texts(out@) + Seq::<Seq<char>>::empty() =~= text::texts(out@));
        },
    }
    let ghost before = text::texts(out@);
    let last = text::join2("exit code: ", text::number(p.exit_code()).as_str());
    let ghost seen = last@;
    out.push(last);
    assert(text::texts(out@) =~= before + seq![seen]);
    out
}

// ---------------------------------------------------------------------------
// JSON lines
// ---------------------------------------------------------------------------
/// The character of a hexadecimal digit.
pub open spec fn hex(d: int) -> char {
    if d < 10 {
        text::digit_char(d)
    } else if d == 10 {
        'a'
    } else if d == 11 {
        'b'
    } else if d == 12 {
        'c'
    } else if d == 13 {
        'd'
    } else if d == 14 {
        'e'
    } else {
        'f'
    }
}

/// A character as it stands in a JSON string.
pub open spec fn json_char(c: char) -> Seq<char> {
    if c == '"' {
        seq!['\\', '"']
    } else if c == '\\' {
        seq!['\\', '\\']
    } else if c == '\u{8}' {
        seq!['\\', 'b']
    } else if c == '\t' {
        seq!['\\', 't']
    } else if c == '\n' {
        seq!['\\', 'n']
    } else if c == '\u{c}' {
        seq!['\\', 'f']
    } else if c == '\r' {
        seq!['\\', 'r']
    } else if (c as int) < 0x20 {
        seq!['\\', 'u', '0', '0', hex((c as int) / 16), hex((c as int) % 16)]
    } else {
        seq![c]
    }
}

/// The characters of a text as they stand in a JSON string.
pub open spec fn json_chars(s: Seq<char>) -> Seq<char>
    decreases s.len(),
{
    if s.len() == 0 {
        Seq::empty()
    } else {
        json_chars(s.drop_last()) + json_char(s.last())
    }
}

/// A text as a JSON string.
pub open spec fn json_string(s: Seq<char>) -> Seq<char> {
    seq!['"'] + json_chars(s) + seq!['"']
}

/// `serde_json::Value::to_string` on a string value: the text in double quotes,
/// with quotes, backslashes and control characters escaped and everything else
/// as it stands.
#[verifier::external_body]
fn quote(s: &str) -> (r: String)
    ensures
        r@ == json_string(s@),
{
    serde_json::Value::from(s).to_string()
}

/// What a result is called in an event.
pub open spec fn kind_name(kind: ResultKind) -> Seq<char> {
    match kind {
        ResultKind::Passed => "ok"@,
        ResultKind::Failed(_) => "failed"@,
        ResultKind::Skipped => "skipped"@,
    }
}

/// The exit code in an event: only what failed has one.
pub open spec fn kind_code(kind: ResultKind) -> Seq<char> {
    match kind {
        ResultKind::Failed(c) => text::decimal(c as int),
        _ => "null"@,
    }
}

/// The time in an event.
pub open spec fn millis(dur: Option<ElapsedView>) -> Seq<char> {
    match dur {
        Some(d) => d.millis,
        None => "null"@,
    }
}

/// The event for a unit that came to an end, the keys in order.
pub open spec fn task_event_text(
    label: Seq<char>,
    kind: ResultKind,
    dur: Option<ElapsedView>,
) -> Seq<char> {
    "{\"durationMs\":"@ + millis(dur) + ",\"exitCode\":"@ + kind_code(kind) + ",\"label\":"@
        + json_string(label) + ",\"status\":\""@ + kind_name(kind) + "\",\"type\":\"task\"}"@
}

/// How many of the first `n` results are of a kind, by its name.
pub open spec fn tally(results: Seq<ResultView>, name: Seq<char>, n: int) -> nat
    decreases n,
{
    if n <= 0 {
        0
    } else if kind_name(results[n - 1].kind) == name {
        tally(results, name, n - 1) + 1
    } else {
        tally(results, name, n - 1)
    }
}

/// The event that ends a run, the keys in order.
pub open spec fn summary_event_text(root: Seq<char>, p: ProgressView, elapsed: Seq<char>) -> Seq<
    char,
> {
    let n = p.results.len() as int;
    let reason = match p.runner_error {
        Some(m) => json_string(m),
        None => "null"@,
    };
    let verdict = if exec::run_code(p) == 0 {
        "ok"@
    } else {
        "failed"@
    };
    "{\"durationMs\":"@ + elapsed + ",\"exitCode\":"@ + text::decimal(exec::run_code(p))
        + ",\"failed\":"@ + text::digits(tally(p.results, "failed"@, n)) + ",\"ok\":"@
        + text::digits(tally(p.results, "ok"@, n)) + ",\"runnerError\":"@ + reason
        + ",\"skipped\":"@ + text::digits(tally(p.results, "skipped"@, n)) + ",\"status\":\""@
        + verdict + "\",\"task\":"@ + json_string(root) + ",\"type\":\"summary\"}"@
}

fn name_of(kind: ResultKind) -> (r: &'static str)
    ensures
        r@ == kind_name(kind),
{
    match kind {
        ResultKind::Passed => "ok",
        ResultKind::Failed(_) => "failed",
        ResultKind::Skipped => "skipped",
    }
}

/// The event for a unit that came to an end.
pub fn task_event(label: &str, kind: ResultKind, dur: &Option<Elapsed>) -> (r: String)
    ensures
        r@ == task_event_text(label@, kind, exec::elapsed_view(*dur)),
{
    let mut line = "{\"durationMs\":".to_string();
    match dur {
        Some(d) => line.append(d.millis.as_str()),
        None => line.append("null"),
    }
    line.append(",\"exitCode\":");
    match kind {
        ResultKind::Failed(c) => line.append(text::number(c).as_str()),
        _ => line.append("null"),
    }
    line.append(",\"label\":");
    line.append(quote(label).as_str());
    line.append(",\"status\":\"");
    line.append(name_of(kind));
    line.append("\",\"type\":\"task\"}");
    line
}

fn count_named(results: &Vec<JobResult>, name: &str) -> (r: u64)
    ensures
        r == tally(exec::result_views(results@), name@, results.len() as int),
        r <= results.len(),
{
    let ghost all = exec::result_views(results@);
    let mut n: u64 = 0;
    let mut i: usize = 0;
    while i < results.len()
        invariant
            i <= results.len(),
            n <= i,
            all == exec::result_views(results@),
            n == tally(all, name@, i as int),
        decreases results.len() - i,
    {
        assert(all[i as int] == results@[i as int]@);
        if text::same(name_of(results[i].kind), name) {
            n += 1;
        }
        i += 1;
    }
    n
}

/// The event that ends a run.
pub fn summary_event(root: &str, p: &Progress, elapsed: &str) -> (r: String)
    ensures
        r@ == summary_event_text(root@, p@, elapsed@),
{
    let code = p.exit_code();
    let mut line = text::join3("{\"durationMs\":", elapsed, ",\"exitCode\":");
    line.append(text::number(code).as_str());
    line.append(",\"failed\":");
    line.append(text::count(count_named(&p.results, "failed")).as_str());
    line.append(",\"ok\":");
    line.append(text::count(count_named(&p.results, "ok")).as_str());
    line.append(",\"runnerError\":");
    match &p.runner_error {
        Some(m) => line.append(quote(m.as_str()).as_str()),
        None => line.append("null"),
    }
    line.append(",\"skipped\":");
    line.append(text::count(count_named(&p.results, "skipped")).as_str());
    line.append(",\"status\":\"");
    line.append(
        if code == 0 {
            "ok"
        } else {
            "failed"
        },
    );
    line.append("\",\"task\":");
    line.append(quote(root).as_str());
    line.append(",\"type\":\"summary\"}");
    line
}

/// Whether events are wanted at all: by the terminal, by a file, or by both.
pub fn events_enabled(reporter: Reporter, to_file: bool) -> (r: bool)
    ensures
        r == (reporter == Reporter::Ndjson || to_file),
{
    reporter == Reporter::Ndjson || to_file
}

/// Whether the terminal gets the summary: after a failure, unless it gets events.
pub fn summary_wanted(reporter: Reporter, code: i32) -> (r: bool)
    ensures
        r == (reporter == Reporter::Human && code != 0),
{
    reporter == Reporter::Human && code != 0
}

// ---------------------------------------------------------------------------
// Laws
// ---------------------------------------------------------------------------
/// Whether a text is a single line.
pub open spec fn one_line(s: Seq<char>) -> bool {
    !s.contains('\n')
}

proof fn lemma_one_line_concat(a: Seq<char>, b: Seq<char>)
    requires
        one_line(a),
        one_line(b),
    ensures
        one_line(a + b),
{
    if (a + b).contains('\n') {
        let i = choose|i: int| 0 <= i < (a + b).len() && (a + b)[i] == '\n';
        if i < a.len() {
            assert(a[i] == '\n');
        } else {
            assert(b[i - a.len()] == '\n');
        }
    }
}

proof fn lemma_json_one_line(s: Seq<char>)
    ensures
        one_line(json_chars(s)),
        one_line(json_string(s)),
    decreases s.len(),
{
    if s.len() > 0 {
        lemma_json_one_line(s.drop_last());
        assert(one_line(json_char(s.last())));
        lemma_one_line_concat(json_chars(s.drop_last()), json_char(s.last()));
    }
    assert(one_line(seq!['"']));
    lemma_one_line_concat(seq!['"'], json_chars(s));
    lemma_one_line_concat(seq!['"'] + json_chars(s), seq!['"']);
}

proof fn lemma_decimal_one_line(n: int)
    ensures
        one_line(text::decimal(n)),
        n >= 0 ==> one_line(text::digits(n as nat)),
{
    let size: int = if n < 0 {
        -n
    } else {
        n
    };
    lemma_digits_one_line(size as nat);
    assert(one_line(seq!['-']));
    lemma_one_line_concat(seq!['-'], text::digits(size as nat));
}

proof fn lemma_digits_one_line(n: nat)
    ensures
        one_line(text::digits(n)),
    decreases n,
{
    if n >= 10 {
        lemma_digits_one_line(n / 10);
        let last = seq![text::digit_char((n % 10) as int)];
        assert(one_line(last));
        lemma_one_line_concat(text::digits(n / 10), last);
        assert(text::digits(n / 10) + last =~= text::digits(n));
    }
}

proof fn lemma_words_one_line()
    ensures
        one_line("null"@),
        one_line("ok"@),
        one_line("failed"@),
        one_line("skipped"@),
        one_line("{\"durationMs\":"@),
        one_line(",\"exitCode\":"@),
        one_line(",\"label\":"@),
        one_line(",\"status\":\""@),
        one_line("\",\"type\":\"task\"}"@),
        one_line(",\"failed\":"@),
        one_line(",\"ok\":"@),
        one_line(",\"runnerError\":"@),
        one_line(",\"skipped\":"@),
        one_line("\",\"task\":"@),
        one_line(",\"type\":\"summary\"}"@),
{
    reveal_strlit("null");
    reveal_strlit("ok");
    reveal_strlit("failed");
    reveal_strlit("skipped");
    reveal_strlit("{\"durationMs\":");
    reveal_strlit(",\"exitCode\":");
    reveal_strlit(",\"label\":");
    reveal_strlit(",\"status\":\"");
    reveal_strlit("\",\"type\":\"task\"}");
    reveal_strlit(",\"failed\":");
    reveal_strlit(",\"ok\":");
    reveal_strlit(",\"runnerError\":");
    reveal_strlit(",\"skipped\":");
    reveal_strlit("\",\"task\":");
    reveal_strlit(",\"type\":\"summary\"}");
}

/// The event for a unit is one line, whatever its label holds.
pub proof fn law_task_events_are_lines(
    label: Seq<char>,
    kind: ResultKind,
    dur: Option<ElapsedView>,
)
    requires
        dur is Some ==> one_line(dur->0.millis),
    ensures
        one_line(task_event_text(label, kind, dur)),
{
    lemma_words_one_line();
    lemma_json_one_line(label);
    if kind is Failed {
        lemma_decimal_one_line(kind->Failed_0 as int);
    }
    let a = "{\"durationMs\":"@ + millis(dur);
    lemma_one_line_concat("{\"durationMs\":"@, millis(dur));
    let b = a + ",\"exitCode\":"@;
    lemma_one_line_concat(a, ",\"exitCode\":"@);
    let c = b + kind_code(kind);
    lemma_one_line_concat(b, kind_code(kind));
    let d = c + ",\"label\":"@;
    lemma_one_line_concat(c, ",\"label\":"@);
    let e = d + json_string(label);
    lemma_one_line_concat(d, json_string(label));
    let f = e + ",\"status\":\""@;
    lemma_one_line_concat(e, ",\"status\":\""@);
    let g = f + kind_name(kind);
    lemma_one_line_concat(f, kind_name(kind));
    lemma_one_line_concat(g, "\",\"type\":\"task\"}"@);
}

/// The event that ends a run is one line, whatever the task is called and
/// whatever went wrong.
pub proof fn law_summary_events_are_lines(root: Seq<char>, p: ProgressView, elapsed: Seq<char>)
    requires
        one_line(elapsed),
    ensures
        one_line(summary_event_text(root, p, elapsed)),
{
    lemma_words_one_line();
    lemma_json_one_line(root);
    let n = p.results.len() as int;
    let code = exec::run_code(p);
    lemma_decimal_one_line(code);
    lemma_digits_one_line(tally(p.results, "failed"@, n));
    lemma_digits_one_line(tally(p.results, "ok"@, n));
    lemma_digits_one_line(tally(p.results, "skipped"@, n));
    let reason = match p.runner_error {
        Some(m) => json_string(m),
        None => "null"@,
    };
    if p.runner_error is Some {
        lemma_json_one_line(p.runner_error->0);
    }
    let verdict = if code == 0 {
        "ok"@
    } else {
        "failed"@
    };
    let s = "{\"durationMs\":"@;
    lemma_one_line_concat(s, elapsed);
    let s = s + elapsed;
    lemma_one_line_concat(s, ",\"exitCode\":"@);
    let s = s + ",\"exitCode\":"@;
    lemma_one_line_concat(s, text::decimal(code));
    let s = s + text::decimal(code);
    lemma_one_line_concat(s, ",\"failed\":"@);
    let s = s + ",\"failed\":"@;
    lemma_one_line_concat(s, text::digits(tally(p.results, "failed"@, n)));
    let s = s + text::digits(tally(p.results, "failed"@, n));
    lemma_one_line_concat(s, ",\"ok\":"@);
    let s = s + ",\"ok\":"@;
    lemma_one_line_concat(s, text::digits(tally(p.results, "ok"@, n)));
    let s = s + text::digits(tally(p.results, "ok"@, n));
    lemma_one_line_concat(s, ",\"runnerError\":"@);
    let s = s + ",\"runnerError\":"@;
    lemma_one_line_concat(s, reason);
    let s = s + reason;
    lemma_one_line_concat(s, ",\"skipped\":"@);
    let s = s + ",\"skipped\":"@;
    lemma_one_line_concat(s, text::digits(tally(p.results, "skipped"@, n)));
    let s = s + text::digits(tally(p.results, "skipped"@, n));
    lemma_one_line_concat(s, ",\"status\":\""@);
    let s = s + ",\"status\":\""@;
    lemma_one_line_concat(s, verdict);
    let s = s + verdict;
    lemma_one_line_concat(s, "\",\"task\":"@);
    let s = s + "\",\"task\":"@;
    lemma_one_line_concat(s, json_string(root));
    let s = s + json_string(root);
    lemma_one_line_concat(s, ",\"type\":\"summary\"}"@);
}

/// Every result is counted once in the event that ends the run.
pub proof fn law_tallies_add_up(results: Seq<ResultView>, n: int)
    requires
        0 <= n <= results.len(),
    ensures
        tally(results, "ok"@, n) + tally(results, "failed"@, n) + tally(results, "skipped"@, n)
            == n,
    decreases n,
{
    reveal_strlit("ok");
    reveal_strlit("failed");
    reveal_strlit("skipped");
    assert("ok"@.len() == 2 && "failed"@.len() == 6 && "skipped"@.len() == 7);
    if n > 0 {
        law_tallies_add_up(results, n - 1);
    }
}

/// The sign and the words for each result.
pub proof fn law_signs(r: ResultView, width: nat, c: i32)
    ensures
        ({
            let dur = if r.dur is Some {
                r.dur->0.seconds
            } else {
                Seq::empty()
            };
            let label = text::padded(r.label, width);
            let line = result_line(r, width);
            &&& r.kind == ResultKind::Passed ==> line == "  "@ + "✓"@ + " "@ + label + "  "@
                + text::padded("ok"@, 10) + " "@ + dur
            &&& r.kind == ResultKind::Failed(c) ==> line == "  "@ + "✗"@ + " "@ + label + "  "@
                + text::padded("exit "@ + text::decimal(c as int), 10) + " "@ + dur
            &&& r.kind == ResultKind::Skipped ==> line == "  "@ + "⊘"@ + " "@ + label + "  "@
                + text::padded("skipped"@, 10) + " "@ + dur
        }),
{
}

/// The summary names the task, has one line for each result, in their order and with the
/// labels in one column, says why the runner gave up if it did, and ends with the exit
/// code of the run.
pub proof fn law_summaries(root: Seq<char>, p: ProgressView, i: int)
    ensures
        ({
            let s = summary(root, p);
            let n = p.results.len() as int;
            let more: int = if p.runner_error is Some {
                2
            } else {
                0
            };
            &&& s.len() == n + 5 + more
            &&& s[1] == "✗ "@ + root + " failed"@
            &&& 0 <= i < n ==> s[3 + i] == result_line(
                p.results[i],
                text::widest(labels(p.results), n),
            )
            &&& p.runner_error matches Some(m) ==> s[n + 4] == "  "@ + m
            &&& s[s.len() - 1] == "exit code: "@ + text::decimal(exec::run_code(p))
            &&& s[0].len() == 0 && s[2].len() == 0 && s[n + 3].len() == 0
        }),
{
    let lines = result_lines(p.results);
    if 0 <= i < p.results.len() {
        assert(lines[i] == result_line(
            p.results[i],
            text::widest(labels(p.results), p.results.len() as int),
        ));
    }
}

/// The counts of the event that ends a run are those of the results that passed, failed
/// and were skipped.
pub proof fn law_tallies_count(results: Seq<ResultView>, n: int)
    requires
        0 <= n <= results.len(),
    ensures
        tally(results, "ok"@, n) == results.take(n).filter(
            |r: ResultView| r.kind is Passed,
        ).len(),
        tally(results, "failed"@, n) == results.take(n).filter(
            |r: ResultView| r.kind is Failed,
        ).len(),
        tally(results, "skipped"@, n) == results.take(n).filter(
            |r: ResultView| r.kind is Skipped,
        ).len(),
    decreases n,
{
    reveal_strlit("ok");
    reveal_strlit("failed");
    reveal_strlit("skipped");
    assert("ok"@.len() == 2 && "failed"@.len() == 6 && "skipped"@.len() == 7);
    reveal(Seq::filter);
    if n > 0 {
        law_tallies_count(results, n - 1);
        assert(results.take(n).drop_last() =~= results.take(n - 1));
        assert(results.take(n).last() == results[n - 1]);
    } else {
        assert(results.take(0).len() == 0);
    }
}

/// The event for a unit says how long it took, its exit code if it failed, its label and
/// what it came to.
pub proof fn law_task_events(label: Seq<char>, dur: Option<ElapsedView>, c: i32)
    ensures
        ({
            let time = if dur is Some {
                dur->0.millis
            } else {
                "null"@
            };
            let front = "{\"durationMs\":"@ + time + ",\"exitCode\":"@;
            let back = ",\"label\":"@ + json_string(label) + ",\"status\":\""@;
            &&& task_event_text(label, ResultKind::Passed, dur) == front + "null"@ + back + "ok"@
                + "\",\"type\":\"task\"}"@
            &&& task_event_text(label, ResultKind::Skipped, dur) == front + "null"@ + back
                + "skipped"@ + "\",\"type\":\"task\"}"@
            &&& task_event_text(label, ResultKind::Failed(c), dur) == front + text::decimal(
                c as int,
            ) + back + "failed"@ + "\",\"type\":\"task\"}"@
        }),
{
    let time = if dur is Some {
        dur->0.millis
    } else {
        "null"@
    };
    let front = "{\"durationMs\":"@ + time + ",\"exitCode\":"@;
    let back = ",\"label\":"@ + json_string(label) + ",\"status\":\""@;
    assert(task_event_text(label, ResultKind::Passed, dur) =~= front + "null"@ + back + "ok"@
        + "\",\"type\":\"task\"}"@);
    assert(task_event_text(label, ResultKind::Skipped, dur) =~= front + "null"@ + back + "skipped"@
        + "\",\"type\":\"task\"}"@);
    assert(task_event_text(label, ResultKind::Failed(c), dur) =~= front + text::decimal(c as int)
        + back + "failed"@ + "\",\"type\":\"task\"}"@);
}

/// The event that ends a run says how long it took, its exit code, how many units failed,
/// passed and were skipped, why the runner gave up if it did, and that it went well
/// exactly if the exit code is zero.
pub proof fn law_summary_events(root: Seq<char>, p: ProgressView, elapsed: Seq<char>)
    ensures
        ({
            let code = exec::run_code(p);
            let failed = p.results.filter(|r: ResultView| r.kind is Failed).len();
            let passed = p.results.filter(|r: ResultView| r.kind is Passed).len();
            let skipped = p.results.filter(|r: ResultView| r.kind is Skipped).len();
            let reason = if p.runner_error is Some {
                json_string(p.runner_error->0)
            } else {
                "null"@
            };
            summary_event_text(root, p, elapsed) == "{\"durationMs\":"@ + elapsed
                + ",\"exitCode\":"@ + text::decimal(code) + ",\"failed\":"@ + text::digits(failed)
                + ",\"ok\":"@ + text::digits(passed) + ",\"runnerError\":"@ + reason
                + ",\"skipped\":"@ + text::digits(skipped) + ",\"status\":\""@ + (if code == 0 {
                "ok"@
            } else {
                "failed"@
            }) + "\",\"task\":"@ + json_string(root) + ",\"type\":\"summary\"}"@
        }),
{
    let n = p.results.len() as int;
    law_tallies_count(p.results, n);
    assert(p.results.take(n) =~= p.results);
}

} // verus!
