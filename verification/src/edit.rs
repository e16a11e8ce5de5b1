//! Edits of a document that keep what is written around its entries.
//!
//! A new task goes below everything that the file holds. A task that is edited
//! stays where it is, with its comments and with the keys that the form does not
//! know. The comment right above a task that is deleted goes with it; what stands
//! above that, such as a file header, is handed on.

use vstd::prelude::*;

use crate::config;
use crate::form;
use crate::form::FormState;
use crate::text;
use crate::toml;
use crate::toml::{DocView, Entries, Toml, TomlView};

verus! {

// ---------------------------------------------------------------------------
// Comments
// ---------------------------------------------------------------------------
/// Where the line that `n` is in starts.
pub open spec fn line_start(s: Seq<char>, n: int) -> int
    decreases n,
{
    if n <= 0 || s[n - 1] == '\n' {
        n
    } else {
        line_start(s, n - 1)
    }
}

/// Whether a blank line ends at `n`: a line break with nothing but white space in
/// front of it.
pub open spec fn blank_ends(s: Seq<char>, n: int) -> bool {
    &&& 0 < n <= s.len()
    &&& s[n - 1] == '\n'
    &&& forall|i: int| line_start(s, n - 1) <= i < n - 1 ==> text::is_space(#[trigger] s[i])
}

/// The end of the last blank line among the first `n` characters; 0 if there is
/// none.
pub open spec fn last_blank(s: Seq<char>, n: int) -> int
    decreases n,
{
    if n <= 0 {
        0
    } else if blank_ends(s, n) {
        n
    } else {
        last_blank(s, n - 1)
    }
}

/// The part of the text above a task that is not about the task: all up to the last
/// blank line.
pub open spec fn upper_part(above: Seq<char>) -> Seq<char> {
    above.take(last_blank(above, above.len() as int))
}

/// Whether a text is more than white space.
pub open spec fn says_something(s: Seq<char>) -> bool {
    exists|i: int| 0 <= i < s.len() && !text::is_space(#[trigger] s[i])
}

/// A text that something is to follow below: it ends with a blank line.
pub open spec fn closed_off(s: Seq<char>) -> Seq<char> {
    let ended = if s.len() > 0 && s.last() != '\n' {
        s.push('\n')
    } else {
        s
    };
    if ended.len() == 0 || blank_ends(ended, ended.len() as int) {
        ended
    } else {
        ended.push('\n')
    }
}

/// Whether a blank line ends at `n`.
fn is_blank_end(cs: &Vec<char>, n: usize) -> (r: bool)
    requires
        n <= cs.len(),
    ensures
        r == blank_ends(cs@, n as int),
{
    if n == 0 || cs[n - 1] != '\n' {
        return false;
    }
    let mut i: usize = n - 1;
    let ghost start = line_start(cs@, n - 1);
    while i > 0 && cs[i - 1] != '\n'
        invariant
            i < n <= cs.len(),
            start == line_start(cs@, i as int),
            start == line_start(cs@, n - 1),
            cs@[n - 1] == '\n',
            forall|j: int| i <= j < n - 1 ==> text::is_space(#[trigger] cs@[j]),
        decreases i,
    {
        if !text::space(cs[i - 1]) {
            proof {
                lemma_line_start(cs@, i - 1);
            }
            return false;
        }
        i -= 1;
    }
    true
}

proof fn lemma_line_start(s: Seq<char>, n: int)
    ensures
        n >= 0 ==> 0 <= line_start(s, n) <= n,
    decreases n,
{
    if n > 0 && s[n - 1] != '\n' {
        lemma_line_start(s, n - 1);
    }
}

proof fn lemma_last_blank(s: Seq<char>, n: int)
    requires
        0 <= n <= s.len(),
    ensures
        0 <= last_blank(s, n) <= n,
        last_blank(s, n) > 0 ==> blank_ends(s, last_blank(s, n)),
        forall|m: int| last_blank(s, n) < m <= n ==> !blank_ends(s, m),
    decreases n,
{
    if n > 0 && !blank_ends(s, n) {
        lemma_last_blank(s, n - 1);
    }
}

proof fn lemma_line_start_behind(s: Seq<char>, from: int, n: int)
    requires
        0 <= from,
        0 <= n <= s.len() - from,
        from == 0 || s[from - 1] == '\n',
    ensures
        line_start(s, from + n) == from + line_start(s.skip(from), n),
    decreases n,
{
    if n > 0 {
        assert(s.skip(from)[n - 1] == s[from + n - 1]);
        if s[from + n - 1] != '\n' {
            lemma_line_start_behind(s, from, n - 1);
        }
    }
}

/// Split the text above a task at its last blank line: what is not about the task,
/// and the block right above it.
pub fn split_comment(above: &str) -> (r: (String, String))
    ensures
        r.0@ + r.1@ == above@,
        r.0@ == upper_part(above@),
        r.0@.len() == 0 || blank_ends(r.0@, r.0@.len() as int),
        forall|n: int| !blank_ends(r.1@, n),
{
    let cs = text::chars(above);
    let mut n: usize = cs.len();
    while n > 0 && !is_blank_end(&cs, n)
        invariant
            n <= cs.len(),
            cs@ == above@,
            last_blank(cs@, cs.len() as int) == last_blank(cs@, n as int),
        decreases n,
    {
        n -= 1;
    }
    let upper = text::slice(&cs, 0, n);
    let own = text::slice(&cs, n, cs.len());
    proof {
        let s = cs@;
        lemma_last_blank(s, s.len() as int);
        assert(s.subrange(0, n as int) =~= s.take(n as int));
        assert(upper@ + own@ =~= s);
        assert(own@ =~= s.skip(n as int));
        if n > 0 {
            lemma_line_start_in(s, n as int, n - 1);
            lemma_line_start(s, n - 1);
            assert forall|i: int| line_start(upper@, n - 1) <= i < n - 1 implies text::is_space(
                #[trigger] upper@[i],
            ) by {
                assert(upper@[i] == s[i]);
            }
        }
        assert forall|m: int| !blank_ends(own@, m) by {
            if blank_ends(own@, m) {
                lemma_line_start_behind(s, n as int, m - 1);
                assert(own@[m - 1] == s[n + m - 1]);
                assert forall|i: int| line_start(s, n + m - 1) <= i < n + m - 1 implies text::is_space(
                    #[trigger] s[i],
                ) by {
                    lemma_line_start(own@, m - 1);
                    assert(own@[i - n] == s[i]);
                }
                assert(blank_ends(s, n + m));
            }
        }
    }
    (upper, own)
}

proof fn lemma_line_start_in(s: Seq<char>, len: int, n: int)
    requires
        0 <= n <= len <= s.len(),
    ensures
        line_start(s.take(len), n) == line_start(s, n),
    decreases n,
{
    if n > 0 {
        assert(s.take(len)[n - 1] == s[n - 1]);
        lemma_line_start_in(s, len, n - 1);
    }
}

fn has_words(s: &str) -> (r: bool)
    ensures
        r == says_something(s@),
{
    let cs = text::chars(s);
    let mut i: usize = 0;
    while i < cs.len()
        invariant
            i <= cs.len(),
            cs@ == s@,
            forall|j: int| 0 <= j < i ==> text::is_space(#[trigger] cs@[j]),
        decreases cs.len() - i,
    {
        if !text::space(cs[i]) {
            assert(!text::is_space(cs@[i as int]));
            return true;
        }
        i += 1;
    }
    false
}

/// Close a text off, so that something can follow below.
fn close_off(s: &str) -> (r: String)
    ensures
        r@ == closed_off(s@),
{
    let mut out = s.to_string();
    let cs = text::chars(s);
    if cs.len() > 0 && cs[cs.len() - 1] != '\n' {
        out.push('\n');
    }
    let cs = text::chars(out.as_str());
    if cs.len() > 0 && !is_blank_end(&cs, cs.len()) {
        out.push('\n');
    }
    out
}

// ---------------------------------------------------------------------------
// Deleting
// ---------------------------------------------------------------------------
/// Whether the task at `i` is printed below the one at `j`.
pub open spec fn is_below(tasks: Entries, places: Map<Seq<char>, int>, i: int, j: int) -> bool {
    &&& tasks[i].0 != tasks[j].0
    &&& places.contains_key(tasks[i].0)
    &&& places.contains_key(tasks[j].0)
    &&& places[tasks[i].0] > places[tasks[j].0] || (places[tasks[i].0] == places[tasks[j].0] && i
        > j)
}

/// Of the first `n` tasks, the one that is printed next below the one at `at`.
pub open spec fn next_below(
    tasks: Entries,
    places: Map<Seq<char>, int>,
    at: int,
    n: int,
) -> Option<int>
    decreases n,
{
    if n <= 0 {
        None
    } else {
        let best = next_below(tasks, places, at, n - 1);
        if is_below(tasks, places, n - 1, at) && (match best {
            Some(b) => is_below(tasks, places, b, n - 1),
            None => true,
        }) {
            Some(n - 1)
        } else {
            best
        }
    }
}

/// The text in front of a task.
pub open spec fn comment_of(d: DocView, name: Seq<char>) -> Seq<char> {
    if d.layout.comments.contains_key(name) {
        d.layout.comments[name]
    } else {
        Seq::empty()
    }
}

/// The task that is printed in a task's place once that is gone.
pub open spec fn heir(d: DocView, name: Seq<char>) -> Option<Seq<char>> {
    let tasks = toml::tasks_table(d.entries)->0;
    let at = toml::key_at(tasks, name);
    if at < tasks.len() {
        match next_below(tasks, d.layout.places, at, tasks.len() as int) {
            Some(i) => Some(tasks[i].0),
            None => None,
        }
    } else {
        None
    }
}

/// A document after a task was deleted. The block right above the task goes with
/// it; what is written above that is handed on to the task that is then printed in
/// its place, or to the end of the document if there is none.
pub open spec fn deleted(d: DocView, name: Seq<char>) -> DocView {
    let upper = upper_part(comment_of(d, name));
    let rest = toml::without_task(d, name);
    if !says_something(upper) {
        rest
    } else {
        match heir(d, name) {
            Some(h) => toml::with_comment(rest, h, upper + comment_of(d, h)),
            None => toml::with_tail(rest, upper + d.layout.tail),
        }
    }
}

/// The entries of `tasks`, where that is a table.
fn find_tasks(entries: &Vec<(String, Toml)>) -> (r: Option<&Vec<(String, Toml)>>)
    ensures
        match r {
            Some(v) => toml::tasks_table(toml::entry_views(entries@)) == Some(
                toml::entry_views(v@),
            ),
            None => toml::tasks_table(toml::entry_views(entries@)) is None,
        },
{
    match toml::get(entries, "tasks") {
        Some(t) => {
            proof {
                toml::lemma_view_parts(*t);
            }
            match t {
                Toml::Table(v) => Some(v),
                _ => None,
            }
        },
        None => None,
    }
}

/// The tasks and where each of them stands.
spec fn are_places(
    tasks: Entries,
    places: Map<Seq<char>, int>,
    v: Seq<(String, Option<usize>)>,
) -> bool {
    &&& v.len() == tasks.len()
    &&& forall|i: int|
        0 <= i < v.len() ==> (#[trigger] v[i]).0@ == tasks[i].0 && match v[i].1 {
            Some(p) => places.contains_key(tasks[i].0) && places[tasks[i].0] == p,
            None => !places.contains_key(tasks[i].0),
        }
}

fn below(v: &Vec<(String, Option<usize>)>, i: usize, j: usize) -> (r: bool)
    requires
        i < v.len(),
        j < v.len(),
    ensures
        forall|tasks: Entries, places: Map<Seq<char>, int>| #[trigger]
            are_places(tasks, places, v@) ==> r == is_below(tasks, places, i as int, j as int),
{
    match (v[i].1, v[j].1) {
        (Some(p), Some(q)) => !text::same(v[i].0.as_str(), v[j].0.as_str()) && (p > q || (p == q
            && i > j)),
        _ => false,
    }
}

/// The task that is printed in a task's place once that is gone.
fn find_heir(doc: &toml_edit::DocumentMut, name: &str) -> (r: Option<String>)
    requires
        toml::tasks_table(toml::document_entries(*doc)) is Some,
    ensures
        config::opt_text(r) == heir(toml::content(*doc), name@),
        r matches Some(h) ==> toml::is_headed(toml::document_entries(*doc), h@) && h@ != name@,
{
    let entries = toml::entries(doc);
    let list = match find_tasks(&entries) {
        Some(v) => v,
        None => return None,
    };
    let ghost tasks = toml::entry_views(list@);
    let ghost places = toml::document_layout(*doc).places;
    let mut v: Vec<(String, Option<usize>)> = Vec::new();
    let mut at: Option<usize> = None;
    let mut i: usize = 0;
    assert(tasks.skip(0) =~= tasks);
    while i < list.len()
        invariant
            i <= list.len(),
            tasks == toml::entry_views(list@),
            toml::tasks_table(toml::document_entries(*doc)) == Some(tasks),
            places == toml::document_layout(*doc).places,
            v.len() == i,
            are_places(tasks.take(i as int), places, v@),
            forall|j: int|
                0 <= j < i && (#[trigger] v@[j]).1 is Some ==> toml::is_headed(
                    toml::document_entries(*doc),
                    v@[j].0@,
                ),
            match at {
                Some(a) => a < i && a == toml::key_at(tasks, name@) && tasks[a as int].0 == name@,
                None => toml::key_at(tasks, name@) == i + toml::key_at(tasks.skip(i as int), name@),
            },
        decreases list.len() - i,
    {
        assert(tasks[i as int].0 == list@[i as int].0@);
        assert(tasks.skip(i as int)[0] == tasks[i as int]);
        assert(tasks.skip(i as int).drop_first() =~= tasks.skip(i + 1));
        let p = toml::place(doc, list[i].0.as_str());
        if at.is_none() && text::same(list[i].0.as_str(), name) {
            at = Some(i);
        }
        let ghost before = v@;
        v.push((list[i].0.clone(), p));
        proof {
            assert forall|j: int| 0 <= j < v.len() implies (#[trigger] v@[j]).0@ == tasks.take(
                i + 1,
            )[j].0 && match v@[j].1 {
                Some(p) => places.contains_key(tasks.take(i + 1)[j].0) && places[tasks.take(
                    i + 1,
                )[j].0] == p,
                None => !places.contains_key(tasks.take(i + 1)[j].0),
            } by {
                if j < i {
                    assert(v@[j] == before[j]);
                    assert(tasks.take(i as int)[j] == tasks[j]);
                }
            }
        }
        i += 1;
    }
    proof {
        assert(tasks.take(i as int) =~= tasks);
        assert(tasks.skip(i as int) =~= Seq::empty());
        assert(are_places(tasks, places, v@));
    }
    let at = match at {
        Some(a) => a,
        None => return None,
    };
    let mut best: Option<usize> = None;
    let mut k: usize = 0;
    while k < v.len()
        invariant
            k <= v.len(),
            at < v.len(),
            are_places(tasks, places, v@),
            match best {
                Some(b) => b < k && next_below(tasks, places, at as int, k as int) == Some(b as int)
                    && is_below(tasks, places, b as int, at as int),
                None => next_below(tasks, places, at as int, k as int) is None,
            },
        decreases v.len() - k,
    {
        if below(&v, k, at) {
            match best {
                None => {
                    best = Some(k);
                },
                Some(b) => {
                    if below(&v, b, k) {
                        best = Some(k);
                    }
                },
            }
        }
        k += 1;
    }
    match best {
        None => None,
        Some(b) => {
            assert(v@[b as int].0@ == tasks[b as int].0);
            assert(v@[b as int].1 is Some);
            Some(v[b].0.clone())
        },
    }
}

/// Delete a task: see [`deleted`].
pub fn delete_task(doc: &mut toml_edit::DocumentMut, name: &str)
    requires
        toml::tasks_table(toml::document_entries(*old(doc))) is Some,
    ensures
        toml::content(*final(doc)) == deleted(toml::content(*old(doc)), name@),
{
    let ghost d = toml::content(*doc);
    let above = match toml::comment(doc, name) {
        Some(s) => s,
        None => String::new(),
    };
    assert(above@ =~= comment_of(d, name@));
    let (upper, _own) = split_comment(above.as_str());
    if !has_words(upper.as_str()) {
        toml::remove_task(doc, name);
        return ;
    }
    match find_heir(doc, name) {
        Some(h) => {
            let theirs = match toml::comment(doc, h.as_str()) {
                Some(s) => s,
                None => String::new(),
            };
            assert(theirs@ =~= comment_of(d, h@));
            toml::remove_task(doc, name);
            proof {
                lemma_with_tasks(d, toml::without(toml::tasks_table(d.entries)->0, name@));
                toml::lemma_lookup_without(toml::tasks_table(d.entries)->0, name@, h@);
            }
            let all = text::join2(upper.as_str(), theirs.as_str());
            toml::set_comment(doc, h.as_str(), all.as_str());
        },
        None => {
            let tail = toml::tail(doc);
            toml::remove_task(doc, name);
            let all = text::join2(upper.as_str(), tail.as_str());
            toml::set_tail(doc, all.as_str());
        },
    }
}

/// A document with other tasks has them, and everything else that it had.
proof fn lemma_with_tasks(d: DocView, tasks: Entries)
    ensures
        toml::tasks_table(toml::with_tasks(d, tasks).entries) == Some(tasks),
        forall|k: Seq<char>|
            k != "tasks"@ ==> #[trigger] toml::lookup(toml::with_tasks(d, tasks).entries, k)
                == toml::lookup(d.entries, k),
{
    toml::lemma_lookup_put(d.entries, "tasks"@, TomlView::Table(tasks), "tasks"@);
    assert forall|k: Seq<char>| k != "tasks"@ implies #[trigger] toml::lookup(
        toml::with_tasks(d, tasks).entries,
        k,
    ) == toml::lookup(d.entries, k) by {
        toml::lemma_lookup_put(d.entries, "tasks"@, TomlView::Table(tasks), k);
    }
}

// ---------------------------------------------------------------------------
// Saving
// ---------------------------------------------------------------------------
/// A document whose tasks are a table.
pub open spec fn opened(d: DocView) -> DocView {
    if toml::tasks_table(d.entries) is Some {
        d
    } else {
        toml::with_open_tasks(d)
    }
}

/// The fields that the form for a task shows.
pub open spec fn shown(d: DocView, original: Option<Seq<char>>) -> Option<Entries> {
    match original {
        Some(key) => form::shown_fields(d.entries, key),
        None => None,
    }
}

/// The value under an optional table's key.
pub open spec fn shown_at(e: Option<Entries>, key: Seq<char>) -> Option<TomlView> {
    match e {
        Some(e) => toml::lookup(e, key),
        None => None,
    }
}

/// A document with a form's task under its own name: a task that is renamed takes
/// the place of one that has the name.
pub open spec fn renamed(d: DocView, original: Option<Seq<char>>, name: Seq<char>) -> DocView {
    let tasks = toml::tasks_table(d.entries)->0;
    match original {
        Some(key) => if key != name && toml::lookup(tasks, key) is Some {
            toml::with_task_renamed(
                if toml::lookup(tasks, name) is Some {
                    deleted(d, name)
                } else {
                    d
                },
                key,
                name,
            )
        } else {
            d
        },
        None => d,
    }
}

/// A document with a new task below everything it holds: the text behind its last
/// entry comes in front of the task.
pub open spec fn added(d: DocView, name: Seq<char>) -> DocView {
    let placed = toml::with_place(toml::with_task(d, name), name, usize::MAX as int);
    if d.layout.tail.len() == 0 {
        placed
    } else {
        toml::with_tail(
            toml::with_comment(placed, name, closed_off(d.layout.tail)),
            Seq::empty(),
        )
    }
}

/// A document with the first `n` keys of a task that a form knows as the form has
/// them. What the form shows as it was stays as it is written.
pub open spec fn edited(
    d: DocView,
    name: Seq<char>,
    fields: Entries,
    was: Option<Entries>,
    n: int,
) -> DocView
    decreases n,
{
    if n <= 0 {
        d
    } else {
        let before = edited(d, name, fields, was, n - 1);
        let key = form::form_key(n - 1);
        let here = toml::lookup(toml::task_fields(before.entries, name)->0, key);
        match toml::lookup(fields, key) {
            None => if here is Some {
                toml::without_field(before, name, key)
            } else {
                before
            },
            Some(v) => if here is Some && shown_at(was, key) == Some(v) {
                before
            } else {
                toml::with_field(before, name, key, v)
            },
        }
    }
}

/// A document with a task that is ready to be edited: the one that has the name, or
/// that is renamed, or a new one.
pub open spec fn readied(d: DocView, original: Option<Seq<char>>, name: Seq<char>) -> DocView {
    let there = renamed(opened(d), original, name);
    if toml::task_fields(there.entries, name) is Some {
        there
    } else {
        added(there, name)
    }
}

/// A document after a form was saved.
pub open spec fn applied(
    d: DocView,
    original: Option<Seq<char>>,
    name: Seq<char>,
    fields: Entries,
) -> DocView {
    edited(readied(d, original, name), name, fields, shown(d, original), form::FORM_KEYS as int)
}

/// Make the tasks of a document a table.
pub fn open_tasks(doc: &mut toml_edit::DocumentMut)
    ensures
        toml::content(*final(doc)) == opened(toml::content(*old(doc))),
        toml::tasks_table(toml::document_entries(*final(doc))) is Some,
{
    let entries = toml::entries(doc);
    let ghost d = toml::content(*doc);
    if find_tasks(&entries).is_none() {
        toml::open_tasks(doc);
        proof {
            lemma_opened(d);
        }
    }
}

proof fn lemma_opened(d: DocView)
    ensures
        toml::tasks_table(opened(d).entries) is Some,
        toml::tasks_table(opened(d).entries) == Some(
            match toml::table_at(d.entries, "tasks"@) {
                Some(e) => e,
                None => Seq::empty(),
            },
        ),
        forall|k: Seq<char>|
            k != "tasks"@ ==> #[trigger] toml::lookup(opened(d).entries, k) == toml::lookup(
                d.entries,
                k,
            ),
{
    if toml::tasks_table(d.entries) is None {
        let rest = toml::without(d.entries, "tasks"@);
        let item = opened(d).entries.last();
        toml::lemma_lookup_without(d.entries, "tasks"@, "tasks"@);
        toml::lemma_lookup_push(rest, item, "tasks"@);
        assert forall|k: Seq<char>| k != "tasks"@ implies #[trigger] toml::lookup(
            opened(d).entries,
            k,
        ) == toml::lookup(d.entries, k) by {
            toml::lemma_lookup_without(d.entries, "tasks"@, k);
            toml::lemma_lookup_push(rest, item, k);
        }
    }
}

/// The tasks after one was deleted.
proof fn lemma_deleted(d: DocView, name: Seq<char>)
    requires
        toml::tasks_table(d.entries) is Some,
    ensures
        toml::tasks_table(deleted(d, name).entries) == Some(
            toml::without(toml::tasks_table(d.entries)->0, name),
        ),
        forall|k: Seq<char>|
            k != "tasks"@ ==> #[trigger] toml::lookup(deleted(d, name).entries, k) == toml::lookup(
                d.entries,
                k,
            ),
{
    lemma_with_tasks(d, toml::without(toml::tasks_table(d.entries)->0, name));
}

/// The tasks after one was renamed.
proof fn lemma_renamed(d: DocView, original: Option<Seq<char>>, name: Seq<char>)
    requires
        toml::tasks_table(d.entries) is Some,
    ensures
        toml::tasks_table(renamed(d, original, name).entries) is Some,
{
    let tasks = toml::tasks_table(d.entries)->0;
    if let Some(key) = original {
        if key != name && toml::lookup(tasks, key) is Some {
            lemma_deleted(d, name);
            let base = if toml::lookup(tasks, name) is Some {
                deleted(d, name)
            } else {
                d
            };
            let t = toml::tasks_table(base.entries)->0;
            lemma_with_tasks(
                base,
                toml::without(toml::without(t, key), name).push(
                    (name, toml::lookup(t, key)->0),
                ),
            );
        }
    }
}

/// The tasks after a new one was added.
proof fn lemma_added(d: DocView, name: Seq<char>)
    requires
        toml::tasks_table(d.entries) is Some,
    ensures
        toml::tasks_table(toml::with_task(d, name).entries) == Some(
            toml::without(toml::tasks_table(d.entries)->0, name).push(
                (name, TomlView::Table(Seq::empty())),
            ),
        ),
        added(d, name).entries == toml::with_task(d, name).entries,
        toml::is_headed(added(d, name).entries, name),
        toml::task_fields(added(d, name).entries, name) == Some(Seq::<(Seq<char>, TomlView)>::empty()),
{
    let rest = toml::without(toml::tasks_table(d.entries)->0, name);
    let item = (name, TomlView::Table(Seq::empty()));
    lemma_with_tasks(d, rest.push(item));
    toml::lemma_lookup_without(toml::tasks_table(d.entries)->0, name, name);
    toml::lemma_lookup_push(rest, item, name);
}

/// The task after its entries were changed.
proof fn lemma_task_fields(d: DocView, name: Seq<char>, e: Entries)
    requires
        toml::task_fields(d.entries, name) is Some,
    ensures
        toml::task_fields(toml::with_task_fields(d, name, e).entries, name) == Some(e),
        toml::is_headed(toml::with_task_fields(d, name, e).entries, name) == toml::is_headed(
            d.entries,
            name,
        ),
        forall|k: Seq<char>|
            k != name ==> #[trigger] toml::lookup(
                toml::tasks_table(toml::with_task_fields(d, name, e).entries)->0,
                k,
            ) == toml::lookup(toml::tasks_table(d.entries)->0, k),
        forall|k: Seq<char>|
            k != "tasks"@ ==> #[trigger] toml::lookup(
                toml::with_task_fields(d, name, e).entries,
                k,
            ) == toml::lookup(d.entries, k),
{
    let tasks = toml::tasks_table(d.entries)->0;
    let v = toml::with_entries(toml::lookup(tasks, name)->0, e);
    lemma_with_tasks(d, toml::put(tasks, name, v));
    toml::lemma_lookup_put(tasks, name, v, name);
    assert forall|k: Seq<char>| k != name implies #[trigger] toml::lookup(
        toml::tasks_table(toml::with_task_fields(d, name, e).entries)->0,
        k,
    ) == toml::lookup(tasks, k) by {
        toml::lemma_lookup_put(tasks, name, v, k);
    }
}

/// The entries of a task, where it is a table.
fn find_fields<'a>(entries: &'a Vec<(String, Toml)>, name: &str) -> (r: Option<
    &'a Vec<(String, Toml)>,
>)
    ensures
        match r {
            Some(v) => toml::task_fields(toml::entry_views(entries@), name@) == Some(
                toml::entry_views(v@),
            ),
            None => toml::task_fields(toml::entry_views(entries@), name@) is None,
        },
{
    match find_tasks(entries) {
        Some(tasks) => toml::get_table(tasks, name),
        None => None,
    }
}

fn is_shown(was: &Option<Vec<(String, Toml)>>, key: &str, v: &Toml) -> (r: bool)
    ensures
        r == (shown_at(opt_entries(*was), key@) == Some(v@)),
{
    match was {
        Some(e) => match toml::get(e, key) {
            Some(w) => toml::same(w, v),
            None => false,
        },
        None => false,
    }
}

/// What an optional list of entries holds.
pub open spec fn opt_entries(e: Option<Vec<(String, Toml)>>) -> Option<Entries> {
    match e {
        Some(e) => Some(toml::entry_views(e@)),
        None => None,
    }
}

/// Give a task the fields of a form: see [`edited`].
fn edit_task(
    doc: &mut toml_edit::DocumentMut,
    name: &str,
    fields: &Vec<(String, Toml)>,
    was: &Option<Vec<(String, Toml)>>,
)
    requires
        toml::task_fields(toml::document_entries(*old(doc)), name@) is Some,
        toml::are_fields(toml::entry_views(fields@)),
    ensures
        toml::content(*final(doc)) == edited(
            toml::content(*old(doc)),
            name@,
            toml::entry_views(fields@),
            opt_entries(*was),
            form::FORM_KEYS as int,
        ),
{
    let ghost d = toml::content(*doc);
    let ghost fe = toml::entry_views(fields@);
    let mut i: usize = 0;
    while i < form::FORM_KEYS
        invariant
            i <= form::FORM_KEYS,
            fe == toml::entry_views(fields@),
            toml::are_fields(fe),
            toml::content(*doc) == edited(d, name@, fe, opt_entries(*was), i as int),
            toml::task_fields(toml::document_entries(*doc), name@) is Some,
        decreases form::FORM_KEYS - i,
    {
        let key = form::form_key_at(i);
        let ghost before = toml::content(*doc);
        let entries = toml::entries(doc);
        let here = match find_fields(&entries, name) {
            Some(e) => toml::get(e, key).is_some(),
            None => false,
        };
        let ghost e = toml::task_fields(before.entries, name@)->0;
        match toml::get(fields, key) {
            None => {
                if here {
                    toml::remove_field(doc, name, key);
                    proof {
                        lemma_task_fields(before, name@, toml::without(e, key@));
                    }
                }
            },
            Some(v) => {
                proof {
                    toml::lemma_key_at(fe, key@);
                    assert(fe[toml::key_at(fe, key@)].1 == v@);
                    lemma_task_fields(before, name@, toml::put(e, key@, v@));
                }
                if here {
                    if !is_shown(was, key, v) {
                        toml::set_field(doc, name, key, v);
                    }
                } else {
                    toml::add_field(doc, name, key, v);
                }
            },
        }
        i += 1;
    }
}

/// Put a form's task into a document: see [`applied`]. `original` is the task that
/// the form was opened on.
pub fn put_task(
    doc: &mut toml_edit::DocumentMut,
    original: &Option<String>,
    name: &str,
    fields: &Vec<(String, Toml)>,
)
    requires
        toml::are_fields(toml::entry_views(fields@)),
    ensures
        toml::content(*final(doc)) == applied(
            toml::content(*old(doc)),
            config::opt_text(*original),
            name@,
            toml::entry_views(fields@),
        ),
{
    let ghost d = toml::content(*doc);
    let ghost from = config::opt_text(*original);
    let entries = toml::entries(doc);
    let was = match original {
        Some(key) => match form::build_task_table(&FormState::from_doc(&entries, key.as_str())) {
            Ok((_name, e)) => Some(e),
            Err(_) => None,
        },
        None => None,
    };
    assert(opt_entries(was) == shown(d, from));
    open_tasks(doc);
    rename(doc, original, name);
    proof {
        lemma_renamed(opened(d), from, name@);
    }
    let entries = toml::entries(doc);
    if find_fields(&entries, name).is_none() {
        add_task(doc, name);
    }
    edit_task(doc, name, fields, &was);
}

/// Rename a task where a form does: see [`renamed`].
fn rename(doc: &mut toml_edit::DocumentMut, original: &Option<String>, name: &str)
    requires
        toml::tasks_table(toml::document_entries(*old(doc))) is Some,
    ensures
        toml::content(*final(doc)) == renamed(
            toml::content(*old(doc)),
            config::opt_text(*original),
            name@,
        ),
{
    let key = match original {
        Some(key) => key,
        None => return ,
    };
    if text::same(key.as_str(), name) {
        return ;
    }
    let entries = toml::entries(doc);
    let ghost d = toml::content(*doc);
    if let Some(tasks) = find_tasks(&entries) {
        let ghost t = toml::entry_views(tasks@);
        if toml::get(tasks, key.as_str()).is_some() {
            if toml::get(tasks, name).is_some() {
                delete_task(doc, name);
                proof {
                    lemma_deleted(d, name@);
                    toml::lemma_lookup_without(t, name@, key@);
                }
            }
            toml::rename_task(doc, key.as_str(), name);
        }
    }
}

/// Add a task below everything else: see [`added`].
fn add_task(doc: &mut toml_edit::DocumentMut, name: &str)
    requires
        toml::tasks_table(toml::document_entries(*old(doc))) is Some,
    ensures
        toml::content(*final(doc)) == added(toml::content(*old(doc)), name@),
        toml::task_fields(toml::document_entries(*final(doc)), name@) is Some,
{
    let ghost d = toml::content(*doc);
    proof {
        lemma_added(d, name@);
    }
    let tail = toml::tail(doc);
    toml::insert_task(doc, name);
    toml::set_place(doc, name, usize::MAX);
    if text::chars(tail.as_str()).len() > 0 {
        let above = close_off(tail.as_str());
        toml::set_comment(doc, name, above.as_str());
        toml::set_tail(doc, "");
        proof {
            reveal_strlit("");
            assert(""@ =~= Seq::<char>::empty());
        }
    }
}

// ---------------------------------------------------------------------------
// Laws
// ---------------------------------------------------------------------------
proof fn lemma_form_keys_differ(i: int, j: int)
    requires
        0 <= i < j < form::FORM_KEYS,
    ensures
        form::form_key(i) != form::form_key(j),
{
    form::lemma_keys_differ();
}

/// What a task has under a key once it was edited.
pub open spec fn field_after(
    was: Entries,
    fields: Entries,
    shown: Option<Entries>,
    key: Seq<char>,
) -> Option<TomlView> {
    if !form::is_form_key(key) {
        toml::lookup(was, key)
    } else {
        match toml::lookup(fields, key) {
            None => None,
            Some(v) => if toml::lookup(was, key) is Some && shown_at(shown, key) == Some(v) {
                toml::lookup(was, key)
            } else {
                Some(v)
            },
        }
    }
}

spec fn is_edited(
    d: DocView,
    r: DocView,
    name: Seq<char>,
    fields: Entries,
    shown: Option<Entries>,
    n: int,
) -> bool {
    let was = toml::task_fields(d.entries, name)->0;
    let now = toml::task_fields(r.entries, name)->0;
    &&& toml::task_fields(r.entries, name) is Some
    &&& toml::is_headed(r.entries, name) == toml::is_headed(d.entries, name)
    &&& forall|i: int|
        0 <= i < n ==> toml::lookup(now, #[trigger] form::form_key(i)) == field_after(
            was,
            fields,
            shown,
            form::form_key(i),
        )
    &&& forall|key: Seq<char>|
        (forall|i: int| 0 <= i < n ==> #[trigger] form::form_key(i) != key)
            ==> #[trigger] toml::lookup(now, key) == toml::lookup(was, key)
    &&& forall|k: Seq<char>|
        k != name ==> #[trigger] toml::lookup(toml::tasks_table(r.entries)->0, k) == toml::lookup(
            toml::tasks_table(d.entries)->0,
            k,
        )
    &&& forall|k: Seq<char>|
        k != "tasks"@ ==> #[trigger] toml::lookup(r.entries, k) == toml::lookup(d.entries, k)
    &&& r.layout.tail == d.layout.tail
    &&& r.layout.outside == d.layout.outside
    &&& r.layout.head == d.layout.head
    &&& r.layout.comments == d.layout.comments
    &&& r.layout.behind == d.layout.behind
    &&& r.layout.places == d.layout.places
    &&& r.layout.headers == d.layout.headers
    &&& forall|k: (Seq<char>, Seq<char>)| #[trigger]
        d.layout.lines.contains_key(k) && (k.0 != name || !form::is_form_key(k.1) || toml::lookup(
            fields,
            k.1,
        ) is Some) ==> r.layout.lines.contains_key(k) && r.layout.lines[k] == d.layout.lines[k]
}

proof fn lemma_edited(d: DocView, name: Seq<char>, fields: Entries, shown: Option<Entries>, n: int)
    requires
        toml::task_fields(d.entries, name) is Some,
        0 <= n <= form::FORM_KEYS,
    ensures
        is_edited(d, edited(d, name, fields, shown, n), name, fields, shown, n),
    decreases n,
{
    if n > 0 {
        lemma_edited(d, name, fields, shown, n - 1);
        let before = edited(d, name, fields, shown, n - 1);
        let r = edited(d, name, fields, shown, n);
        let key = form::form_key(n - 1);
        let was = toml::task_fields(d.entries, name)->0;
        let e = toml::task_fields(before.entries, name)->0;
        assert forall|i: int| 0 <= i < n - 1 implies #[trigger] form::form_key(i) != key by {
            lemma_form_keys_differ(i, n - 1);
        }
        assert(toml::lookup(e, key) == toml::lookup(was, key));
        assert(form::is_form_key(key));
        let v = toml::lookup(fields, key);
        let next = if v is None {
            toml::without(e, key)
        } else {
            toml::put(e, key, v->0)
        };
        lemma_task_fields(before, name, next);
        assert forall|k: Seq<char>| #[trigger] toml::lookup(next, k) == if k == key {
            v
        } else {
            toml::lookup(e, k)
        } by {
            toml::lemma_lookup_without(e, key, k);
            if v is Some {
                toml::lemma_lookup_put(e, key, v->0, k);
            }
        }
        let now = toml::task_fields(r.entries, name)->0;
        assert(toml::lookup(now, key) == field_after(was, fields, shown, key));
        assert forall|i: int| 0 <= i < n implies toml::lookup(now, #[trigger] form::form_key(i))
            == field_after(was, fields, shown, form::form_key(i)) by {
            if i < n - 1 {
                assert(form::form_key(i) != key);
            }
        }
        assert forall|k: Seq<char>|
            (forall|i: int| 0 <= i < n ==> #[trigger] form::form_key(i) != k) implies #[trigger] toml::lookup(
            now,
            k,
        ) == toml::lookup(was, k) by {
            assert(form::form_key(n - 1) != k);
            assert(toml::lookup(e, k) == toml::lookup(was, k));
        }
    }
}

/// What a task that is saved is made from.
pub open spec fn base_of(d: DocView, original: Option<Seq<char>>, name: Seq<char>) -> Option<Entries> {
    let tasks = toml::tasks_table(opened(d).entries)->0;
    match original {
        Some(key) => if toml::lookup(tasks, key) is Some {
            toml::table_at(tasks, key)
        } else {
            toml::table_at(tasks, name)
        },
        None => toml::table_at(tasks, name),
    }
}

/// Whether saving renames a task.
pub open spec fn is_renaming(d: DocView, original: Option<Seq<char>>, name: Seq<char>) -> bool {
    original matches Some(key) && key != name && toml::lookup(
        toml::tasks_table(opened(d).entries)->0,
        key,
    ) is Some
}

/// Whether saving puts a renamed task over another one.
pub open spec fn is_replacing(d: DocView, original: Option<Seq<char>>, name: Seq<char>) -> bool {
    is_renaming(d, original, name) && toml::lookup(
        toml::tasks_table(opened(d).entries)->0,
        name,
    ) is Some
}

/// Whether a task stands where it did, with what is written behind its header.
pub open spec fn is_in_place(d: DocView, r: DocView, k: Seq<char>) -> bool {
    &&& r.layout.places.contains_key(k) == d.layout.places.contains_key(k)
    &&& d.layout.places.contains_key(k) ==> r.layout.places[k] == d.layout.places[k]
    &&& r.layout.behind.contains_key(k) == d.layout.behind.contains_key(k)
    &&& d.layout.behind.contains_key(k) ==> r.layout.behind[k] == d.layout.behind[k]
    &&& r.layout.headers.contains(k) == d.layout.headers.contains(k)
}

spec fn is_readied(d: DocView, r: DocView, original: Option<Seq<char>>, name: Seq<char>) -> bool {
    let tasks = toml::tasks_table(opened(d).entries)->0;
    let base = base_of(d, original, name);
    &&& toml::task_fields(r.entries, name) == Some(
        match base {
            Some(e) => e,
            None => Seq::empty(),
        },
    )
    &&& forall|k: Seq<char>|
        k != name && original != Some(k) ==> #[trigger] toml::lookup(
            toml::tasks_table(r.entries)->0,
            k,
        ) == toml::lookup(tasks, k)
    &&& is_renaming(d, original, name) ==> toml::lookup(
        toml::tasks_table(r.entries)->0,
        original->0,
    ) is None
    &&& forall|k: Seq<char>|
        k != "tasks"@ ==> #[trigger] toml::lookup(r.entries, k) == toml::lookup(d.entries, k)
    &&& r.layout.outside == d.layout.outside
    &&& r.layout.head == opened(d).layout.head
    &&& forall|k: Seq<char>|
        k != name && original != Some(k) ==> #[trigger] is_in_place(opened(d), r, k)
    &&& forall|k: Seq<char>|
        k != name && original != Some(k) && !(is_replacing(d, original, name) && heir(
            opened(d),
            name,
        ) == Some(k)) ==> #[trigger] comment_of(r, k) == comment_of(opened(d), k)
    &&& forall|k: (Seq<char>, Seq<char>)| #[trigger]
        d.layout.lines.contains_key(k) && k.0 != name && original != Some(k.0)
            ==> r.layout.lines.contains_key(k) && r.layout.lines[k] == d.layout.lines[k]
}

proof fn lemma_readied(d: DocView, original: Option<Seq<char>>, name: Seq<char>)
    ensures
        is_readied(d, readied(d, original, name), original, name),
        toml::task_fields(renamed(opened(d), original, name).entries, name) == base_of(
            d,
            original,
            name,
        ),
{
    let o = opened(d);
    lemma_opened(d);
    let tasks = toml::tasks_table(o.entries)->0;
    let there = renamed(o, original, name);
    lemma_renamed(o, original, name);
    if is_renaming(d, original, name) {
        let key = original->0;
        lemma_deleted(o, name);
        let mid = if toml::lookup(tasks, name) is Some {
            deleted(o, name)
        } else {
            o
        };
        let t = toml::tasks_table(mid.entries)->0;
        let item = (name, toml::lookup(t, key)->0);
        let rest = toml::without(toml::without(t, key), name);
        lemma_with_tasks(mid, rest.push(item));
        assert forall|k: Seq<char>| #[trigger] toml::lookup(t, k) == if k == name {
            None
        } else {
            toml::lookup(tasks, k)
        } by {
            toml::lemma_lookup_without(tasks, name, k);
        }
        assert forall|k: Seq<char>| #[trigger] toml::lookup(rest.push(item), k) == if k == name {
            Some(item.1)
        } else if k == key {
            None
        } else {
            toml::lookup(tasks, k)
        } by {
            toml::lemma_lookup_without(t, key, k);
            toml::lemma_lookup_without(toml::without(t, key), name, k);
            toml::lemma_lookup_push(rest, item, k);
        }
        assert(toml::tasks_table(there.entries)->0 == rest.push(item));
        assert(toml::task_fields(there.entries, name) == toml::table_at(tasks, key));
        assert(toml::lookup(toml::tasks_table(there.entries)->0, key) is None);
    } else {
        assert(there == o);
    }
    if toml::task_fields(there.entries, name) is None {
        lemma_added(there, name);
        let t = toml::tasks_table(there.entries)->0;
        let item = (name, TomlView::Table(Seq::empty()));
        let rest = toml::without(t, name);
        lemma_with_tasks(there, rest.push(item));
        assert forall|k: Seq<char>| k != name implies #[trigger] toml::lookup(rest.push(item), k)
            == toml::lookup(t, k) by {
            toml::lemma_lookup_without(t, name, k);
            toml::lemma_lookup_push(rest, item, k);
        }
    }
}

/// Saving a form gives its task what the form says, and keeps the keys of the task
/// that a form does not know. It leaves every other task, and everything that is no
/// task, as it was, with what is written around it. Only where the task takes the
/// name of another one, what is written further above that one is handed on as
/// [`deleted`] has it.
pub proof fn law_saving_keeps_the_rest(
    d: DocView,
    original: Option<Seq<char>>,
    name: Seq<char>,
    fields: Entries,
)
    ensures
        ({
            let r = applied(d, original, name, fields);
            let tasks = toml::tasks_table(opened(d).entries)->0;
            let was = match base_of(d, original, name) {
                Some(e) => e,
                None => Seq::empty(),
            };
            &&& toml::task_fields(r.entries, name) matches Some(now) && forall|key: Seq<char>| #[trigger]
                toml::lookup(now, key) == field_after(was, fields, shown(d, original), key)
            &&& forall|k: Seq<char>|
                k != name && original != Some(k) ==> #[trigger] toml::lookup(
                    toml::tasks_table(r.entries)->0,
                    k,
                ) == toml::lookup(tasks, k)
            &&& forall|k: Seq<char>|
                k != "tasks"@ ==> #[trigger] toml::lookup(r.entries, k) == toml::lookup(d.entries, k)
            &&& r.layout.outside == d.layout.outside
            &&& r.layout.head == opened(d).layout.head
            &&& forall|k: Seq<char>|
                k != name && original != Some(k) ==> #[trigger] is_in_place(opened(d), r, k)
            &&& forall|k: Seq<char>|
                k != name && original != Some(k) && !(is_replacing(d, original, name) && heir(
                    opened(d),
                    name,
                ) == Some(k)) ==> #[trigger] comment_of(r, k) == comment_of(opened(d), k)
            &&& forall|k: (Seq<char>, Seq<char>)| #[trigger]
                d.layout.lines.contains_key(k) && k.0 != name && original != Some(k.0)
                    ==> r.layout.lines.contains_key(k) && r.layout.lines[k] == d.layout.lines[k]
        }),
{
    lemma_readied(d, original, name);
    let mid = readied(d, original, name);
    lemma_edited(mid, name, fields, shown(d, original), form::FORM_KEYS as int);
    let r = applied(d, original, name, fields);
    let now = toml::task_fields(r.entries, name)->0;
    let was = toml::task_fields(mid.entries, name)->0;
    assert forall|key: Seq<char>| #[trigger] toml::lookup(now, key) == field_after(
        was,
        fields,
        shown(d, original),
        key,
    ) by {
        if form::is_form_key(key) {
            let i = choose|i: int| 0 <= i < form::FORM_KEYS && #[trigger] form::form_key(i) == key;
            assert(toml::lookup(now, form::form_key(i)) == field_after(
                was,
                fields,
                shown(d, original),
                form::form_key(i),
            ));
        }
    }
}

/// A task that is edited under its name stays where it is, with what is written
/// above it and around each of its entries. So does everything else that is written
/// around the entries.
pub proof fn law_edited_tasks_stay_in_place(
    d: DocView,
    original: Option<Seq<char>>,
    name: Seq<char>,
    fields: Entries,
)
    requires
        !is_renaming(d, original, name),
        base_of(d, original, name) is Some,
    ensures
        ({
            let r = applied(d, original, name, fields);
            let o = opened(d);
            &&& r.layout.tail == d.layout.tail
            &&& r.layout.outside == d.layout.outside
            &&& r.layout.head == o.layout.head
            &&& r.layout.comments == o.layout.comments
            &&& r.layout.behind == d.layout.behind
            &&& r.layout.places == o.layout.places
            &&& r.layout.headers == o.layout.headers
            &&& forall|k: (Seq<char>, Seq<char>)| #[trigger]
                d.layout.lines.contains_key(k) && (k.0 != name || !form::is_form_key(k.1)
                    || toml::lookup(fields, k.1) is Some) ==> r.layout.lines.contains_key(k)
                    && r.layout.lines[k] == d.layout.lines[k]
        }),
{
    lemma_readied(d, original, name);
    let mid = readied(d, original, name);
    assert(renamed(opened(d), original, name) == opened(d));
    assert(mid == opened(d));
    lemma_edited(mid, name, fields, shown(d, original), form::FORM_KEYS as int);
}

/// A task that is renamed takes what is written around it, and its place, to its new
/// name. A task that had that name is deleted before.
pub proof fn law_renamed_tasks_stay_in_place(
    d: DocView,
    original: Seq<char>,
    name: Seq<char>,
    fields: Entries,
)
    requires
        is_renaming(d, Some(original), name),
        base_of(d, Some(original), name) is Some,
    ensures
        ({
            let r = applied(d, Some(original), name, fields);
            let o = if is_replacing(d, Some(original), name) {
                deleted(opened(d), name)
            } else {
                opened(d)
            };
            &&& r.layout.tail == o.layout.tail
            &&& r.layout.outside == d.layout.outside
            &&& r.layout.head == opened(d).layout.head
            &&& r.layout.comments == toml::moved(o.layout.comments, original, name)
            &&& r.layout.behind == toml::moved(o.layout.behind, original, name)
            &&& r.layout.places == toml::moved(o.layout.places, original, name)
            &&& forall|key: Seq<char>|
                d.layout.lines.contains_key((original, key)) && (!form::is_form_key(key)
                    || toml::lookup(fields, key) is Some) ==> #[trigger] r.layout.lines.contains_key(
                    (name, key),
                ) && r.layout.lines[(name, key)] == d.layout.lines[(original, key)]
        }),
{
    lemma_readied(d, Some(original), name);
    let mid = readied(d, Some(original), name);
    assert(mid == renamed(opened(d), Some(original), name));
    lemma_edited(mid, name, fields, shown(d, Some(original)), form::FORM_KEYS as int);
    let r = applied(d, Some(original), name, fields);
    assert forall|key: Seq<char>|
        d.layout.lines.contains_key((original, key)) && (!form::is_form_key(key) || toml::lookup(
            fields,
            key,
        ) is Some) implies #[trigger] r.layout.lines.contains_key((name, key))
        && r.layout.lines[(name, key)] == d.layout.lines[(original, key)] by {
        assert(mid.layout.lines.contains_key((name, key)));
    }
}

/// A new task goes below everything that the document holds. What was written
/// behind the last entry, all of a file that is nothing but comments, comes in front
/// of it, and nothing else that is written is touched.
pub proof fn law_new_tasks_go_below(
    d: DocView,
    original: Option<Seq<char>>,
    name: Seq<char>,
    fields: Entries,
)
    requires
        !is_renaming(d, original, name),
        base_of(d, original, name) is None,
    ensures
        ({
            let r = applied(d, original, name, fields);
            let o = opened(d);
            &&& r.layout.tail == Seq::<char>::empty()
            &&& r.layout.outside == d.layout.outside
            &&& r.layout.head == o.layout.head
            &&& r.layout.behind == o.layout.behind.remove(name).insert(name, Seq::empty())
            &&& r.layout.places == o.layout.places.remove(name).insert(name, usize::MAX as int)
            &&& r.layout.comments.remove(name) == o.layout.comments.remove(name)
            &&& comment_of(r, name) == closed_off(d.layout.tail)
            &&& d.layout.tail.is_prefix_of(comment_of(r, name))
        }),
{
    lemma_readied(d, original, name);
    let mid = readied(d, original, name);
    let o = opened(d);
    assert(mid == added(o, name));
    lemma_edited(mid, name, fields, shown(d, original), form::FORM_KEYS as int);
    let r = applied(d, original, name, fields);
    let t = d.layout.tail;
    assert(closed_off(t).take(t.len() as int) =~= t);
    if t.len() == 0 {
        assert(t =~= Seq::empty());
        assert(closed_off(t) =~= Seq::empty());
    }
    assert(r.layout.comments.remove(name) =~= o.layout.comments.remove(name));
}

/// Deleting a task takes it away, with the block that is written right above it. It
/// leaves every other task, and everything that is no task, as it was. What is
/// written further above is handed on: to the task that is then printed in its
/// place, or to the end of the document.
pub proof fn law_deleting_keeps_the_rest(d: DocView, gone: Seq<char>)
    requires
        toml::tasks_table(d.entries) is Some,
    ensures
        ({
            let r = deleted(d, gone);
            let tasks = toml::tasks_table(d.entries)->0;
            let upper = upper_part(comment_of(d, gone));
            &&& toml::tasks_table(r.entries) == Some(toml::without(tasks, gone))
            &&& toml::lookup(toml::without(tasks, gone), gone) is None
            &&& forall|k: Seq<char>|
                k != gone ==> #[trigger] toml::lookup(toml::without(tasks, gone), k)
                    == toml::lookup(tasks, k)
            &&& forall|k: Seq<char>|
                k != "tasks"@ ==> #[trigger] toml::lookup(r.entries, k) == toml::lookup(d.entries, k)
            &&& r.layout.outside == d.layout.outside
            &&& r.layout.head == d.layout.head
            &&& r.layout.behind == d.layout.behind.remove(gone)
            &&& r.layout.places == d.layout.places.remove(gone)
            &&& r.layout.lines == toml::lines_without(d.layout.lines, gone)
            &&& forall|k: Seq<char>|
                k != gone && heir(d, gone) != Some(k) ==> #[trigger] comment_of(r, k) == comment_of(
                    d,
                    k,
                )
            &&& says_something(upper) ==> match heir(d, gone) {
                Some(h) => comment_of(r, h) == upper + comment_of(d, h) && r.layout.tail
                    == d.layout.tail,
                None => r.layout.tail == upper + d.layout.tail,
            }
            &&& !says_something(upper) ==> r.layout.tail == d.layout.tail && forall|k: Seq<char>|
                k != gone ==> #[trigger] comment_of(r, k) == comment_of(d, k)
        }),
{
    let tasks = toml::tasks_table(d.entries)->0;
    lemma_deleted(d, gone);
    toml::lemma_lookup_without(tasks, gone, gone);
    assert forall|k: Seq<char>| k != gone implies #[trigger] toml::lookup(
        toml::without(tasks, gone),
        k,
    ) == toml::lookup(tasks, k) by {
        toml::lemma_lookup_without(tasks, gone, k);
    }
}

/// Whether every task that has a place has a header that is printed.
pub open spec fn is_settled(d: DocView) -> bool {
    forall|k: Seq<char>| #[trigger]
        d.layout.places.contains_key(k) ==> d.layout.headers.contains(k)
}

/// Edits of a document keep a header for every task that has a place.
pub proof fn law_edits_stay_settled(
    d: DocView,
    original: Option<Seq<char>>,
    name: Seq<char>,
    fields: Entries,
)
    requires
        is_settled(d),
    ensures
        is_settled(applied(d, original, name, fields)),
        is_settled(deleted(opened(d), name)),
{
    lemma_readied(d, original, name);
    let mid = readied(d, original, name);
    assert(is_settled(opened(d)));
    assert(is_settled(deleted(opened(d), name)));
    assert(is_settled(renamed(opened(d), original, name)));
    assert(is_settled(mid));
    lemma_edited(mid, name, fields, shown(d, original), form::FORM_KEYS as int);
}

proof fn lemma_occurs(a: Seq<char>, b: Seq<char>, text: Seq<char>)
    requires
        toml::occurs(toml::printed(a + b), text),
    ensures
        toml::occurs(toml::printed(a), text),
        toml::occurs(toml::printed(b), text),
{
    let p = toml::printed(a);
    let q = toml::printed(b);
    Seq::filter_distributes_over_add(a, b, |c: char| c != '\r');
    assert(toml::printed(a + b) == p + q);
    let i = choose|i: int|
        0 <= i <= text.len() - (p + q).len() && #[trigger] text.subrange(i, i + (p + q).len()) == p
            + q;
    let both = text.subrange(i, i + (p + q).len());
    assert(text.subrange(i, i + p.len()) =~= both.subrange(0, p.len() as int));
    assert((p + q).subrange(0, p.len() as int) =~= p);
    let j = i + p.len();
    assert(text.subrange(j, j + q.len()) =~= both.subrange(p.len() as int, (p + q).len() as int));
    assert((p + q).subrange(p.len() as int, (p + q).len() as int) =~= q);
}

proof fn lemma_tail_occurs(tail: Seq<char>, text: Seq<char>)
    requires
        toml::printed(tail).is_suffix_of(text),
    ensures
        toml::occurs(toml::printed(tail), text),
{
    let p = toml::printed(tail);
    let i = text.len() - p.len();
    assert(text.subrange(i, i + p.len()) =~= p);
}

/// What is written above the other tasks, under headers that are printed, is in the
/// text that a saved form leads to.
pub proof fn law_saving_keeps_comments_in_the_text(
    d: DocView,
    original: Option<Seq<char>>,
    name: Seq<char>,
    fields: Entries,
    text: Seq<char>,
    k: Seq<char>,
)
    requires
        toml::shows(text, applied(d, original, name, fields).layout),
        opened(d).layout.headers.contains(k),
        opened(d).layout.comments.contains_key(k),
        k != name,
        original != Some(k),
    ensures
        toml::occurs(toml::printed(opened(d).layout.comments[k]), text),
{
    let r = applied(d, original, name, fields);
    law_saving_keeps_the_rest(d, original, name, fields);
    assert(is_in_place(opened(d), r, k));
    lemma_readied(d, original, name);
    let mid = readied(d, original, name);
    lemma_edited(mid, name, fields, shown(d, original), form::FORM_KEYS as int);
    assert(r.layout.headers.contains(k));
    let o = opened(d);
    let upper = upper_part(comment_of(o, name));
    if is_replacing(d, original, name) && says_something(upper) && heir(o, name) == Some(k) {
        assert(r.layout.comments[k] == upper + o.layout.comments[k]);
        lemma_occurs(upper, o.layout.comments[k], text);
    } else {
        assert(r.layout.comments.contains_key(k));
        assert(r.layout.comments[k] == o.layout.comments[k]);
    }
}

/// What is written above a task that is edited or renamed is in the text that the
/// saved form leads to, where its header is printed.
pub proof fn law_editing_keeps_the_comment_in_the_text(
    d: DocView,
    original: Seq<char>,
    name: Seq<char>,
    fields: Entries,
    text: Seq<char>,
)
    requires
        toml::shows(text, applied(d, Some(original), name, fields).layout),
        opened(d).layout.headers.contains(original),
        opened(d).layout.comments.contains_key(original),
        toml::task_fields(opened(d).entries, original) is Some,
    ensures
        toml::occurs(toml::printed(opened(d).layout.comments[original]), text),
{
    let r = applied(d, Some(original), name, fields);
    lemma_readied(d, Some(original), name);
    let mid = readied(d, Some(original), name);
    lemma_edited(mid, name, fields, shown(d, Some(original)), form::FORM_KEYS as int);
    let o = opened(d);
    assert(mid == renamed(o, Some(original), name));
    assert(r.layout.headers.contains(name));
    let upper = upper_part(comment_of(o, name));
    if is_replacing(d, Some(original), name) && says_something(upper) && heir(o, name) == Some(
        original,
    ) {
        assert(r.layout.comments[name] == upper + o.layout.comments[original]);
        lemma_occurs(upper, o.layout.comments[original], text);
    } else {
        assert(r.layout.comments[name] == o.layout.comments[original]);
    }
}

/// What was written at the end of the file, all of a file that is nothing but
/// comments, is in the text that a new task leads to.
pub proof fn law_new_tasks_keep_the_end_in_the_text(
    d: DocView,
    original: Option<Seq<char>>,
    name: Seq<char>,
    fields: Entries,
    text: Seq<char>,
)
    requires
        !is_renaming(d, original, name),
        base_of(d, original, name) is None,
        toml::shows(text, applied(d, original, name, fields).layout),
    ensures
        toml::occurs(toml::printed(d.layout.tail), text),
{
    let r = applied(d, original, name, fields);
    let t = d.layout.tail;
    law_new_tasks_go_below(d, original, name, fields);
    lemma_readied(d, original, name);
    let mid = readied(d, original, name);
    assert(mid == added(opened(d), name));
    lemma_edited(mid, name, fields, shown(d, original), form::FORM_KEYS as int);
    if t.len() == 0 {
        assert(t =~= r.layout.tail);
        lemma_tail_occurs(t, text);
    } else {
        assert(r.layout.headers.contains(name));
        assert(r.layout.comments[name] == closed_off(t));
        let more = closed_off(t).skip(t.len() as int);
        assert(closed_off(t) =~= t + more);
        lemma_occurs(t, more, text);
    }
}

/// What is written further above a task that is deleted, such as the head of the
/// file, is in the text that is left.
pub proof fn law_deleting_keeps_the_head_in_the_text(d: DocView, gone: Seq<char>, text: Seq<char>)
    requires
        toml::tasks_table(d.entries) is Some,
        is_settled(d),
        toml::shows(text, deleted(d, gone).layout),
        says_something(upper_part(comment_of(d, gone))),
    ensures
        toml::occurs(toml::printed(upper_part(comment_of(d, gone))), text),
{
    let r = deleted(d, gone);
    let upper = upper_part(comment_of(d, gone));
    match heir(d, gone) {
        Some(h) => {
            lemma_heir(d, gone);
            assert(r.layout.headers.contains(h));
            lemma_occurs(upper, comment_of(d, h), text);
        },
        None => {
            lemma_tail_occurs(upper + d.layout.tail, text);
            lemma_occurs(upper, d.layout.tail, text);
        },
    }
}

proof fn lemma_next_below(tasks: Entries, places: Map<Seq<char>, int>, at: int, n: int)
    requires
        0 <= n,
    ensures
        next_below(tasks, places, at, n) matches Some(i) ==> 0 <= i < n && is_below(
            tasks,
            places,
            i,
            at,
        ),
    decreases n,
{
    if n > 0 {
        lemma_next_below(tasks, places, at, n - 1);
    }
}

/// The task that takes a place is another one, and has a place.
proof fn lemma_heir(d: DocView, gone: Seq<char>)
    ensures
        heir(d, gone) matches Some(h) ==> h != gone && d.layout.places.contains_key(h),
{
    let tasks = toml::tasks_table(d.entries)->0;
    let at = toml::key_at(tasks, gone);
    lemma_next_below(tasks, d.layout.places, at, tasks.len() as int);
    toml::lemma_key_at(tasks, gone);
}

/// A task that was saved is read back as it was saved.
pub proof fn law_saved_forms_read_back(d: DocView, f: form::FormView)
    requires
        form::task_of(f) is Ok,
    ensures
        ({
            let (name, fields) = form::task_of(f)->Ok_0;
            form::task_of(
                form::form_of(applied(d, f.original, name, fields).entries, name),
            ) == form::task_of(f)
        }),
{
    let (name, fields) = form::task_of(f)->Ok_0;
    let r = applied(d, f.original, name, fields);
    law_saving_keeps_the_rest(d, f.original, name, fields);
    lemma_opened(d);
    let now = toml::task_fields(r.entries, name)->0;
    assert(form::task_table(r.entries, name) == Some(now));
    let from = match f.original {
        Some(key) => key,
        None => name,
    };
    if form::task_table(d.entries, from) is None {
        text::lemma_trimmed(Seq::empty(), ' ');
        assert(form::shown_fields(d.entries, from) is None);
    }
    assert forall|i: int| 0 <= i < form::FORM_KEYS implies form::is_as_saved(
        now,
        fields,
        form::task_table(d.entries, from),
        form::shown_fields(d.entries, from),
        #[trigger] form::form_key(i),
    ) by {
        let key = form::form_key(i);
        assert(form::is_form_key(key));
        assert(toml::lookup(now, key) == field_after(
            match base_of(d, f.original, name) {
                Some(e) => e,
                None => Seq::empty(),
            },
            fields,
            shown(d, f.original),
            key,
        ));
    }
    form::law_saved_tasks_read_back(f, r.entries, d.entries, from);
}

proof fn lemma_line_start_at(s: Seq<char>, from: int, n: int)
    requires
        0 <= from <= n <= s.len(),
        from == 0 || s[from - 1] == '\n',
        forall|i: int| from <= i < n ==> #[trigger] s[i] != '\n',
    ensures
        line_start(s, n) == from,
    decreases n - from,
{
    if from < n {
        assert(s[n - 1] != '\n');
        lemma_line_start_at(s, from, n - 1);
    }
}

/// A line is blank exactly if there is nothing but white space on it, be it the first
/// line or one behind another.
pub proof fn law_blank_lines(before: Seq<char>, line: Seq<char>)
    requires
        !line.contains('\n'),
        before.len() == 0 || before.last() == '\n',
    ensures
        ({
            let s = before + line + seq!['\n'];
            blank_ends(s, s.len() as int) <==> forall|i: int|
                0 <= i < line.len() ==> text::is_space(#[trigger] line[i])
        }),
{
    let s = before + line + seq!['\n'];
    let from = before.len() as int;
    let n = s.len() as int;
    assert(s[n - 1] == '\n');
    if from > 0 {
        assert(s[from - 1] == before.last());
    }
    assert forall|i: int| from <= i < n - 1 implies #[trigger] s[i] != '\n' by {
        assert(s[i] == line[i - from]);
        assert(line.contains(line[i - from]));
    }
    lemma_line_start_at(s, from, n - 1);
    if forall|i: int| 0 <= i < line.len() ==> text::is_space(#[trigger] line[i]) {
        assert forall|i: int| from <= i < n - 1 implies text::is_space(#[trigger] s[i]) by {
            assert(s[i] == line[i - from]);
        }
    }
    if blank_ends(s, n) {
        assert forall|i: int| 0 <= i < line.len() implies text::is_space(#[trigger] line[i]) by {
            assert(s[from + i] == line[i]);
        }
    }
}

/// What is written above a task is parted behind its last blank line: the upper part ends
/// there, or is empty, and the block below it has no blank line.
pub proof fn law_comments_are_parted(above: Seq<char>)
    ensures
        ({
            let u = upper_part(above);
            &&& u.is_prefix_of(above)
            &&& u.len() > 0 ==> blank_ends(above, u.len() as int)
            &&& forall|n: int| u.len() < n <= above.len() ==> !blank_ends(above, n)
        }),
{
    lemma_last_blank(above, above.len() as int);
}

proof fn lemma_below_orders(
    tasks: Entries,
    places: Map<Seq<char>, int>,
    at: int,
    n: int,
    k: int,
)
    requires
        0 <= n <= tasks.len(),
        0 <= at < tasks.len(),
        toml::distinct(tasks),
    ensures
        next_below(tasks, places, at, n) is None <==> forall|i: int|
            0 <= i < n ==> !#[trigger] is_below(tasks, places, i, at),
        0 <= k < n && is_below(tasks, places, k, at) ==> {
            let b = next_below(tasks, places, at, n)->0;
            k == b || is_below(tasks, places, k, b)
        },
        next_below(tasks, places, at, n) matches Some(b) ==> 0 <= b < n && is_below(
            tasks,
            places,
            b,
            at,
        ),
    decreases n,
{
    if n > 0 {
        lemma_below_orders(tasks, places, at, n - 1, k);
        let best = next_below(tasks, places, at, n - 1);
        let last = n - 1;
        if is_below(tasks, places, last, at) {
            if let Some(b) = best {
                lemma_below_orders(tasks, places, at, n - 1, b);
                assert(tasks[b].0 != tasks[last].0);
                if 0 <= k < n - 1 && is_below(tasks, places, k, at) {
                    assert(tasks[k].0 != tasks[last].0);
                }
            }
        }
    }
}

/// What is handed on when a task goes is handed to the task that is printed next below
/// it: the one with the nearest place behind its own, and of those the first. Where no
/// task is printed below it there is none.
pub proof fn law_the_heir_comes_next(d: DocView, at: int, k: int)
    requires
        toml::tasks_table(d.entries) is Some,
        toml::distinct(toml::tasks_table(d.entries)->0),
        0 <= at < toml::tasks_table(d.entries)->0.len(),
        0 <= k < toml::tasks_table(d.entries)->0.len(),
    ensures
        ({
            let tasks = toml::tasks_table(d.entries)->0;
            let places = d.layout.places;
            let name = tasks[at].0;
            let other = tasks[k].0;
            let below = places.contains_key(name) && places.contains_key(other) && (places[other]
                > places[name] || (places[other] == places[name] && k > at));
            &&& below && k != at ==> heir(d, name) is Some
            &&& below && k != at ==> places.contains_key(heir(d, name)->0) && places[heir(
                d,
                name,
            )->0] <= places[other]
            &&& heir(d, name) == Some(other) ==> below && k != at
        }),
{
    let tasks = toml::tasks_table(d.entries)->0;
    let places = d.layout.places;
    let name = tasks[at].0;
    toml::lemma_key_at(tasks, name);
    let p = toml::key_at(tasks, name);
    if p < at {
        assert(tasks[p].0 != tasks[at].0);
    }
    assert(p == at);
    let n = tasks.len() as int;
    lemma_below_orders(tasks, places, at, n, k);
    if k != at {
        if k < at {
            assert(tasks[k].0 != tasks[at].0);
        } else {
            assert(tasks[at].0 != tasks[k].0);
        }
    }
    if let Some(b) = next_below(tasks, places, at, n) {
        if tasks[b].0 == tasks[k].0 && b != k {
            if b < k {
                assert(tasks[b].0 != tasks[k].0);
            } else {
                assert(tasks[k].0 != tasks[b].0);
            }
        }
        assert(is_below(tasks, places, b, at));
    }
    assert(k != at ==> (is_below(tasks, places, k, at) <==> places.contains_key(name)
        && places.contains_key(tasks[k].0) && (places[tasks[k].0] > places[name] || (
    places[tasks[k].0] == places[name] && k > at))));
}

/// A comment that is put in front of a new task ends with a blank line, and keeps what it
/// said; nothing is put where there was nothing.
pub proof fn law_comments_are_closed_off(s: Seq<char>)
    ensures
        s.len() == 0 ==> closed_off(s).len() == 0,
        s.is_prefix_of(closed_off(s)),
        s.len() > 0 ==> blank_ends(closed_off(s), closed_off(s).len() as int),
        forall|i: int|
            s.len() <= i < closed_off(s).len() ==> #[trigger] closed_off(s)[i] == '\n',
        closed_off(s).len() <= s.len() + 2,
{
    let r = closed_off(s);
    assert(r.take(s.len() as int) =~= s);
    let ended = if s.len() > 0 && s.last() != '\n' {
        s.push('\n')
    } else {
        s
    };
    if s.len() > 0 && !blank_ends(ended, ended.len() as int) {
        assert(ended.last() == '\n');
        assert(r =~= ended + Seq::<char>::empty() + seq!['\n']);
        law_blank_lines(ended, Seq::empty());
    }
}

/// A text says something exactly if there is more in it than white space.
pub proof fn law_what_says_something(s: Seq<char>, i: int)
    ensures
        0 <= i < s.len() && !text::is_space(s[i]) ==> says_something(s),
        (forall|k: int| 0 <= k < s.len() ==> text::is_space(#[trigger] s[k])) ==> !says_something(s),
{
}

/// A field of a task that is saved: the value of the form, except that a value that the
/// form showed and that was not changed stays as it is written. A field that the form
/// leaves out goes, and one that a form does not know stays.
pub proof fn law_saved_fields(was: Entries, fields: Entries, shown: Option<Entries>, key: Seq<char>)
    ensures
        key != "run"@ && key != "delegate"@ && key != "dir"@ && key != "packages"@ && key != "deps"@
            && key != "args"@ && key != "parallel"@ && key != "env"@ && key != "env_file"@
            ==> field_after(was, fields, shown, key) == toml::lookup(was, key),
        (key == "run"@ || key == "delegate"@ || key == "dir"@ || key == "packages"@ || key
            == "deps"@ || key == "args"@ || key == "parallel"@ || key == "env"@ || key
            == "env_file"@) ==> {
            &&& toml::lookup(fields, key) is None ==> field_after(was, fields, shown, key) is None
            &&& toml::lookup(fields, key) is Some && (toml::lookup(was, key) is None || shown
                is None || toml::lookup(shown->0, key) != toml::lookup(fields, key)) ==> field_after(
                was,
                fields,
                shown,
                key,
            ) == toml::lookup(fields, key)
            &&& toml::lookup(fields, key) is Some && toml::lookup(was, key) is Some && shown is Some
                && toml::lookup(shown->0, key) == toml::lookup(fields, key) ==> field_after(
                was,
                fields,
                shown,
                key,
            ) == toml::lookup(was, key)
        },
{
    form::lemma_keys_differ();
    assert(form::form_key(0) == "run"@ && form::form_key(1) == "delegate"@ && form::form_key(2)
        == "dir"@ && form::form_key(3) == "packages"@ && form::form_key(4) == "deps"@
        && form::form_key(5) == "args"@ && form::form_key(6) == "parallel"@ && form::form_key(7)
        == "env"@ && form::form_key(8) == "env_file"@);
}

} // verus!
