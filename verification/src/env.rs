//! Environment variables.
//!
//! Sources are merged, never replaced, with this precedence (highest wins):
//!
//! ```text
//! task env  >  task env_file(s)  >  workspace [env]  >  root .env file  >  process env
//! ```
//!
//! `env_file` names one or more `.env`-style files, in listed order: later files
//! override earlier ones. Each value is expanded as it is applied, so it may
//! reference the process env and earlier keys, never later ones. `$VAR` inside a
//! `run` string is expanded later, against the merged map.
//!
//! Names are compared the way the platform does: on one where their case does not
//! count, `Path` and `PATH` are one variable. It is written back under the name
//! already in use.

use vstd::prelude::*;

use crate::config;
use crate::config::{Config, Task, TaskView};
use crate::error::{ErrorView, TsrError};
use crate::path;
use crate::shell;
use crate::text;

verus! {

/// The `.env` file loaded from the workspace root.
pub const DOTENV_FILE: &'static str = ".env";

/// The pairs of a map.
pub type Vars = Map<Seq<char>, Seq<char>>;

// ---------------------------------------------------------------------------
// Names
// ---------------------------------------------------------------------------
/// An ASCII letter in upper case; any other character as it is.
pub open spec fn upper_char(c: char) -> char {
    if 'a' <= c <= 'z' {
        ((c as u8 - 32) as u8) as char
    } else {
        c
    }
}

/// A name as the platform compares it: with its letters in upper case where the
/// case does not count.
pub open spec fn folded(name: Seq<char>, ignore_case: bool) -> Seq<char> {
    if ignore_case {
        Seq::new(name.len(), |i: int| upper_char(name[i]))
    } else {
        name
    }
}

/// Whether two names name the same variable on the platform.
pub open spec fn same_name(ignore_case: bool, a: Seq<char>, b: Seq<char>) -> bool {
    folded(a, ignore_case) == folded(b, ignore_case)
}

/// An environment with a variable set. It is found under each of its names.
pub open spec fn set_var(env: Vars, ignore_case: bool, name: Seq<char>, value: Seq<char>) -> Vars {
    Map::new(
        |k: Seq<char>| env.contains_key(k) || same_name(ignore_case, k, name),
        |k: Seq<char>|
            if same_name(ignore_case, k, name) {
                value
            } else {
                env[k]
            },
    )
}

/// Whether a variable among these has this name.
pub open spec fn is_named(names: Seq<Seq<char>>, ignore_case: bool, name: Seq<char>) -> bool {
    exists|i: int| 0 <= i < names.len() && same_name(ignore_case, #[trigger] names[i], name)
}

/// The names that variables go by, once this one is set too: a variable that is
/// there keeps the name already in use.
pub open spec fn with_name(names: Seq<Seq<char>>, ignore_case: bool, name: Seq<char>) -> Seq<Seq<char>> {
    if is_named(names, ignore_case, name) {
        names
    } else {
        names.push(name)
    }
}

/// Whether every variable is found under each of its names.
pub open spec fn is_caseless(env: Vars, ignore_case: bool) -> bool {
    forall|a: Seq<char>, b: Seq<char>| #[trigger]
        same_name(ignore_case, a, b) ==> env.contains_key(a) == env.contains_key(b) && (env.contains_key(
            a,
        ) ==> env[a] == env[b])
}

/// A name as the platform compares it.
pub(crate) fn fold_name(name: &str, ignore_case: bool) -> (r: String)
    ensures
        r@ == folded(name@, ignore_case),
{
    if !ignore_case {
        return name.to_string();
    }
    let cs = text::chars(name);
    let mut out = String::new();
    let mut i: usize = 0;
    assert(out@ =~= folded(name@, true).take(0));
    while i < cs.len()
        invariant
            i <= cs.len(),
            cs@ == name@,
            out@ == folded(name@, true).take(i as int),
        decreases cs.len() - i,
    {
        let c = cs[i];
        let u: char = if 'a' <= c && c <= 'z' {
            (c as u8 - 32) as char
        } else {
            c
        };
        out.push(u);
        assert(out@ =~= folded(name@, true).take(i + 1));
        i += 1;
    }
    assert(folded(name@, true).take(i as int) =~= folded(name@, true));
    out
}

/// Whether two names name the same variable on the platform.
fn names_match(ignore_case: bool, a: &str, b: &str) -> (r: bool)
    ensures
        r == same_name(ignore_case, a@, b@),
{
    text::same(fold_name(a, ignore_case).as_str(), fold_name(b, ignore_case).as_str())
}

/// An environment: a value for each variable that is set.
#[derive(Debug)]
pub struct EnvMap {
    entries: Vec<(String, String)>,
    ignores_case: bool,
}

impl View for EnvMap {
    type V = Map<Seq<char>, Seq<char>>;

    closed spec fn view(&self) -> Map<Seq<char>, Seq<char>> {
        Map::new(
            |k: Seq<char>| self.has(k),
            |k: Seq<char>| self.entries@[self.position(k)].1@,
        )
    }
}

impl EnvMap {
    /// Whether the case of a name does not count.
    pub closed spec fn ignores_case(&self) -> bool {
        self.ignores_case
    }

    /// The names that the variables go by, in the order in which they were set.
    pub closed spec fn names(&self) -> Seq<Seq<char>> {
        Seq::new(self.entries@.len(), |i: int| self.entries@[i].0@)
    }

    /// Whether some entry has this name.
    spec fn has(&self, k: Seq<char>) -> bool {
        exists|i: int|
            0 <= i < self.entries@.len() && same_name(
                self.ignores_case,
                (#[trigger] self.entries@[i]).0@,
                k,
            )
    }

    /// The position of the entry with this name.
    spec fn position(&self, k: Seq<char>) -> int {
        choose|i: int|
            0 <= i < self.entries@.len() && same_name(
                self.ignores_case,
                (#[trigger] self.entries@[i]).0@,
                k,
            )
    }

    /// No variable has two entries.
    #[verifier::type_invariant]
    spec fn inv(&self) -> bool {
        forall|i: int, j: int|
            0 <= i < j < self.entries@.len() ==> !same_name(
                self.ignores_case,
                (#[trigger] self.entries@[i]).0@,
                (#[trigger] self.entries@[j]).0@,
            )
    }

    /// The environment without variables, whose names are told apart by their case.
    pub fn new() -> (m: EnvMap)
        ensures
            m@ == Map::<Seq<char>, Seq<char>>::empty(),
            m.names() == Seq::<Seq<char>>::empty(),
            !m.ignores_case(),
    {
        EnvMap::ignoring_case(false)
    }

    /// The environment without variables. `ignore_case` says that on the platform the
    /// case of a name does not count.
    pub fn ignoring_case(ignore_case: bool) -> (m: EnvMap)
        ensures
            m@ == Map::<Seq<char>, Seq<char>>::empty(),
            m.names() == Seq::<Seq<char>>::empty(),
            m.ignores_case() == ignore_case,
    {
        let m = EnvMap { entries: Vec::new(), ignores_case: ignore_case };
        assert(m@ =~= Map::<Seq<char>, Seq<char>>::empty());
        assert(m.names() =~= Seq::<Seq<char>>::empty());
        m
    }

    /// The index of the entry for `key`, if there is one.
    fn find(&self, key: &str) -> (r: Option<usize>)
        ensures
            match r {
                Some(i) => i < self.entries.len() && same_name(
                    self.ignores_case,
                    self.entries@[i as int].0@,
                    key@,
                ) && self@.contains_key(key@) && self@[key@] == self.entries@[i as int].1@,
                None => !self.has(key@) && !self@.contains_key(key@),
            },
    {
        proof {
            use_type_invariant(self);
        }
        let mut i: usize = 0;
        while i < self.entries.len()
            invariant
                i <= self.entries.len(),
                self.inv(),
                forall|j: int|
                    0 <= j < i ==> !same_name(
                        self.ignores_case,
                        (#[trigger] self.entries@[j]).0@,
                        key@,
                    ),
            decreases self.entries.len() - i,
        {
            if names_match(self.ignores_case, self.entries[i].0.as_str(), key) {
                assert(self.has(key@));
                assert(self.position(key@) == i);
                return Some(i);
            }
            i += 1;
        }
        None
    }

    /// The value of a variable, if it is set.
    pub fn get(&self, key: &str) -> (r: Option<&String>)
        ensures
            match r {
                Some(v) => self@.contains_key(key@) && v@ == self@[key@],
                None => !self@.contains_key(key@),
            },
            is_caseless(self@, self.ignores_case()),
    {
        proof {
            use_type_invariant(self);
            lemma_map_is_caseless(*self);
        }
        match self.find(key) {
            Some(i) => Some(&self.entries[i].1),
            None => None,
        }
    }

    /// Whether a variable is set.
    pub fn contains_key(&self, key: &str) -> (r: bool)
        ensures
            r == self@.contains_key(key@),
    {
        self.find(key).is_some()
    }

    /// Set a variable. One that is there is written back under the name already in
    /// use.
    pub fn insert(&mut self, key: &str, value: &str)
        ensures
            final(self)@ == set_var(old(self)@, old(self).ignores_case(), key@, value@),
            final(self).names() == with_name(old(self).names(), old(self).ignores_case(), key@),
            final(self).ignores_case() == old(self).ignores_case(),
    {
        let ghost before = *self;
        let at = self.find(key);
        proof {
            use_type_invariant(&*self);
        }
        let mut entries: Vec<(String, String)> = Vec::new();
        std::mem::swap(&mut entries, &mut self.entries);
        match at {
            Some(i) => {
                let name = entries[i].0.clone();
                entries.set(i, (name, value.to_string()));
            },
            None => {
                entries.push((key.to_string(), value.to_string()));
            },
        }
        self.entries = entries;
        proof {
            lemma_inserted(before, *self, key@, value@, match at {
                Some(i) => i as int,
                None => before.entries@.len() as int,
            });
        }
    }

    /// The variables and their values, each under the name it goes by.
    pub fn entries(&self) -> (r: &Vec<(String, String)>)
        ensures
            r.len() == self.names().len(),
            forall|i: int|
                0 <= i < r@.len() ==> (#[trigger] r@[i]).0@ == self.names()[i]
                    && self@.contains_key(r@[i].0@) && self@[r@[i].0@] == r@[i].1@,
            forall|k: Seq<char>| #[trigger]
                self@.contains_key(k) <==> is_named(self.names(), self.ignores_case(), k),
    {
        proof {
            use_type_invariant(self);
            let names = self.names();
            assert forall|i: int| 0 <= i < self.entries@.len() implies (
            #[trigger] self.entries@[i]).0@ == names[i] && self@.contains_key(self.entries@[i].0@)
                && self@[self.entries@[i].0@] == self.entries@[i].1@ by {
                assert(self.has(self.entries@[i].0@));
                assert(self.position(self.entries@[i].0@) == i);
            }
            lemma_names(*self);
        }
        &self.entries
    }
}

/// A map holds the variables that its names name.
proof fn lemma_names(m: EnvMap)
    ensures
        forall|k: Seq<char>| #[trigger]
            m@.contains_key(k) <==> is_named(m.names(), m.ignores_case(), k),
{
    assert forall|k: Seq<char>| #[trigger]
        m@.contains_key(k) <==> is_named(m.names(), m.ignores_case(), k) by {
        if m.has(k) {
            let p = m.position(k);
            assert(same_name(m.ignores_case, m.entries@[p].0@, k));
            assert(m.names()[p] == m.entries@[p].0@);
        }
        if is_named(m.names(), m.ignores_case(), k) {
            let p = choose|i: int|
                0 <= i < m.names().len() && same_name(m.ignores_case(), #[trigger] m.names()[i], k);
            assert(same_name(m.ignores_case, m.entries@[p].0@, k));
        }
    }
}

proof fn lemma_map_is_caseless(m: EnvMap)
    requires
        m.inv(),
    ensures
        is_caseless(m@, m.ignores_case()),
{
    assert forall|a: Seq<char>, b: Seq<char>| #[trigger] same_name(m.ignores_case(), a, b) implies m@.contains_key(
        a,
    ) == m@.contains_key(b) && (m@.contains_key(a) ==> m@[a] == m@[b]) by {
        if m.has(a) {
            let p = m.position(a);
            assert(same_name(m.ignores_case, m.entries@[p].0@, b));
            assert(m.position(b) == p);
        }
        if m.has(b) {
            let p = m.position(b);
            assert(same_name(m.ignores_case, m.entries@[p].0@, a));
        }
    }
}

/// Putting a value at `at` of a map without the name elsewhere sets the variable.
proof fn lemma_inserted(before: EnvMap, after: EnvMap, k: Seq<char>, v: Seq<char>, at: int)
    requires
        before.inv(),
        before.ignores_case == after.ignores_case,
        0 <= at <= before.entries@.len(),
        at < before.entries@.len() ==> same_name(before.ignores_case, before.entries@[at].0@, k)
            && after.entries@[at].0@ == before.entries@[at].0@,
        at == before.entries@.len() ==> !before.has(k) && after.entries@[at].0@ == k,
        after.entries@.len() == if at < before.entries@.len() {
            before.entries@.len()
        } else {
            before.entries@.len() + 1
        },
        after.entries@[at].1@ == v,
        forall|i: int|
            0 <= i < before.entries@.len() && i != at ==> #[trigger] after.entries@[i]
                == before.entries@[i],
    ensures
        after.inv(),
        after@ == set_var(before@, before.ignores_case, k, v),
        after.names() == with_name(before.names(), before.ignores_case, k),
{
    let ignore_case = before.ignores_case;
    let owed = set_var(before@, ignore_case, k, v);
    assert forall|i: int, j: int| 0 <= i < j < after.entries@.len() implies !same_name(
        ignore_case,
        (#[trigger] after.entries@[i]).0@,
        (#[trigger] after.entries@[j]).0@,
    ) by {
        assert(after.entries@[i].0@ == before.entries@[i].0@);
        if j < before.entries@.len() {
            assert(after.entries@[j].0@ == before.entries@[j].0@);
        }
    }
    assert(after.inv());
    assert forall|x: Seq<char>| #[trigger]
        after@.contains_key(x) == owed.contains_key(x) && (after@.contains_key(x) ==> after@[x]
            == owed[x]) by {
        if same_name(ignore_case, x, k) {
            assert(same_name(ignore_case, after.entries@[at].0@, x));
            assert(after.has(x));
            assert(after.position(x) == at);
        } else if before.has(x) {
            let p = before.position(x);
            assert(p != at);
            assert(same_name(ignore_case, after.entries@[p].0@, x));
            assert(after.position(x) == p);
        } else {
            if after.has(x) {
                let p = after.position(x);
                assert(p != at);
                assert(same_name(ignore_case, before.entries@[p].0@, x));
            }
        }
    }
    assert(after@ =~= owed);
    lemma_names(before);
    if at < before.entries@.len() {
        assert(before.names()[at] == before.entries@[at].0@);
        assert(after.names() =~= before.names());
    } else {
        assert(!before@.contains_key(k));
        assert(after.names() =~= before.names().push(k));
    }
}

// ---------------------------------------------------------------------------
// Values
// ---------------------------------------------------------------------------
/// The reference behind a `$`, from `start` on: its name and the position behind
/// it. Nothing when the `$` is just a dollar sign.
pub open spec fn reference(s: Seq<char>, start: int) -> Option<(Seq<char>, int)> {
    if start >= s.len() {
        None
    } else if s[start] == '{' {
        let close = text::index_from(s, '}', start + 1);
        if close >= s.len() || close == start + 1 {
            None
        } else {
            Some((s.subrange(start + 1, close), close + 1))
        }
    } else if s[start] == '_' || text::is_letter(s[start]) {
        let end = shell::name_end(s, start);
        Some((s.subrange(start, end), end))
    } else {
        None
    }
}

pub proof fn lemma_reference_advances(s: Seq<char>, start: int)
    requires
        0 <= start <= s.len(),
    ensures
        reference(s, start) matches Some((_, next)) ==> start < next <= s.len(),
{
    if start < s.len() {
        text::lemma_index_from(s, '}', start + 1);
        shell::lemma_name_end(s, start);
    }
}

/// What a name stands for: nothing when it is not set.
pub open spec fn value_or_empty(env: Vars, name: Seq<char>) -> Seq<char> {
    if env.contains_key(name) {
        env[name]
    } else {
        Seq::empty()
    }
}

/// An env value from `i` on with its references expanded. Unset references
/// expand to nothing.
pub open spec fn expanded_from(s: Seq<char>, i: int, env: Vars) -> Seq<char>
    decreases s.len() - i,
{
    if i < 0 || i >= s.len() {
        Seq::empty()
    } else {
        proof {
            lemma_reference_advances(s, i + 1);
        }
        match reference(s, i + 1) {
            Some((name, next)) => if s[i] == '$' {
                value_or_empty(env, name) + expanded_from(s, next, env)
            } else {
                seq![s[i]] + expanded_from(s, i + 1, env)
            },
            None => seq![s[i]] + expanded_from(s, i + 1, env),
        }
    }
}

/// An env value with its references expanded.
pub open spec fn expanded(s: Seq<char>, env: Vars) -> Seq<char> {
    expanded_from(s, 0, env)
}

/// Read the reference behind a `$`.
pub(crate) fn read_var(cs: &Vec<char>, start: usize) -> (r: Option<(String, usize)>)
    requires
        start <= cs.len(),
    ensures
        match r {
            Some((name, next)) => reference(cs@, start as int) == Some((name@, next as int))
                && start < next <= cs.len(),
            None => reference(cs@, start as int) is None,
        },
{
    if start >= cs.len() {
        return None;
    }
    proof {
        lemma_reference_advances(cs@, start as int);
    }
    let c = cs[start];
    if c == '{' {
        let close = text::find(cs, '}', start + 1);
        if close >= cs.len() || close == start + 1 {
            return None;
        }
        return Some((text::slice(cs, start + 1, close), close + 1));
    }
    if c == '_' || text::letter(c) {
        let mut end: usize = start;
        while end < cs.len() && text::name_char(cs[end])
            invariant
                start <= end <= cs.len(),
                shell::name_end(cs@, start as int) == shell::name_end(cs@, end as int),
            decreases cs.len() - end,
        {
            end += 1;
        }
        return Some((text::slice(cs, start, end), end));
    }
    None
}

/// Expand the references in an env value.
pub fn expand_value(input: &str, env: &EnvMap) -> (r: String)
    ensures
        r@ == expanded(input@, env@),
{
    let cs = text::chars(input);
    let ghost m = env@;
    let mut out = String::new();
    let mut i: usize = 0;
    assert(out@ + expanded_from(cs@, 0, m) =~= expanded(input@, m));
    while i < cs.len()
        invariant
            i <= cs.len(),
            cs@ == input@,
            m == env@,
            out@ + expanded_from(cs@, i as int, m) == expanded(input@, m),
        decreases cs.len() - i,
    {
        let ghost before = out@;
        let here = read_var(&cs, i + 1);
        if cs[i] == '$' && here.is_some() {
            let (name, next) = here.unwrap();
            if let Some(v) = env.get(name.as_str()) {
                out.append(v.as_str());
            } else {
                assert(before + Seq::<char>::empty() =~= before);
            }
            assert(out@ =~= before + value_or_empty(m, name@));
            assert(out@ + expanded_from(cs@, next as int, m) =~= before + expanded_from(
                cs@,
                i as int,
                m,
            ));
            i = next;
        } else {
            out.push(cs[i]);
            assert(out@ + expanded_from(cs@, i + 1, m) =~= before + expanded_from(
                cs@,
                i as int,
                m,
            ));
            i += 1;
        }
    }
    assert(out@ + Seq::<char>::empty() =~= out@);
    out
}

// ---------------------------------------------------------------------------
// `.env` files
// ---------------------------------------------------------------------------
/// The text without one pair of quotes around it.
pub open spec fn unquoted(s: Seq<char>) -> Seq<char> {
    if s.len() >= 2 && s[0] == s.last() && (s[0] == '"' || s[0] == '\'') {
        s.subrange(1, s.len() - 1)
    } else {
        s
    }
}

/// The pair that a line sets: `KEY=VALUE`, with an optional `export` in front
/// and optional quotes. Comments and anything else set nothing.
pub open spec fn dotenv_line(raw: Seq<char>) -> Option<(Seq<char>, Seq<char>)> {
    let line = text::trimmed(raw);
    if line.len() == 0 || line[0] == '#' {
        None
    } else {
        let body = text::trimmed_start(
            match text::after_prefix(line, "export "@) {
                Some(rest) => rest,
                None => line,
            },
        );
        let eq = text::index_from(body, '=', 0);
        let key = text::trimmed(body.take(eq));
        if eq >= body.len() || key.len() == 0 {
            None
        } else {
            Some((key, unquoted(text::trimmed(body.skip(eq + 1)))))
        }
    }
}

/// The pairs that the first `n` lines set.
pub open spec fn dotenv_lines(lines: Seq<Seq<char>>, n: int) -> Seq<(Seq<char>, Seq<char>)>
    decreases n,
{
    if n <= 0 {
        Seq::empty()
    } else {
        match dotenv_line(lines[n - 1]) {
            Some(p) => dotenv_lines(lines, n - 1).push(p),
            None => dotenv_lines(lines, n - 1),
        }
    }
}

/// The pairs that a `.env` text sets, in order.
pub open spec fn dotenv(s: Seq<char>) -> Seq<(Seq<char>, Seq<char>)> {
    let lines = text::split(s, '\n');
    dotenv_lines(lines, lines.len() as int)
}

/// Take one pair of quotes off.
fn unquote(cs: &Vec<char>) -> (r: String)
    ensures
        r@ == unquoted(cs@),
{
    let n = cs.len();
    if n >= 2 && cs[0] == cs[n - 1] && (cs[0] == '"' || cs[0] == '\'') {
        text::slice(cs, 1, n - 1)
    } else {
        text::string(cs)
    }
}

/// Read one line of a `.env` text.
fn parse_line(raw: &str) -> (r: Option<(String, String)>)
    ensures
        match r {
            Some((k, v)) => dotenv_line(raw@) == Some((k@, v@)),
            None => dotenv_line(raw@) is None,
        },
{
    let line = text::trim(&text::chars(raw));
    if line.len() == 0 || line[0] == '#' {
        return None;
    }
    let rest = match text::strip_prefix(&line, "export ") {
        Some(rest) => rest,
        None => line,
    };
    let body = text::trim_start(&rest);
    let eq = text::find(&body, '=', 0);
    if eq >= body.len() {
        return None;
    }
    assert(body@.subrange(0, eq as int) =~= body@.take(eq as int));
    assert(body@.subrange(eq + 1, body.len() as int) =~= body@.skip(eq + 1));
    let key = text::trim(&text::cut(&body, 0, eq));
    if key.len() == 0 {
        return None;
    }
    let value = text::trim(&text::cut(&body, eq + 1, body.len()));
    Some((text::string(&key), unquote(&value)))
}

/// Read a `.env` text.
pub fn parse_dotenv(s: &str) -> (r: Vec<(String, String)>)
    ensures
        config::pair_views(r@) == dotenv(s@),
{
    let lines = text::split_at_char(&text::chars(s), '\n');
    let ghost all = text::texts(lines@);
    let mut out: Vec<(String, String)> = Vec::new();
    let mut i: usize = 0;
    assert(config::pair_views(out@) =~= Seq::<(Seq<char>, Seq<char>)>::empty());
    while i < lines.len()
        invariant
            i <= lines.len(),
            all == text::texts(lines@),
            config::pair_views(out@) == dotenv_lines(all, i as int),
        decreases lines.len() - i,
    {
        let ghost before = config::pair_views(out@);
        assert(all[i as int] == lines@[i as int]@);
        if let Some((k, v)) = parse_line(lines[i].as_str()) {
            out.push((k, v));
            assert(config::pair_views(out@) =~= before.push((k@, v@)));
        }
        i += 1;
    }
    out
}

// ---------------------------------------------------------------------------
// Merging
// ---------------------------------------------------------------------------
/// The environment after the first `n` pairs are applied: each value is expanded
/// against everything applied before it.
pub open spec fn applied(
    env: Vars,
    ignore_case: bool,
    pairs: Seq<(Seq<char>, Seq<char>)>,
    n: int,
) -> Vars
    decreases n,
{
    if n <= 0 {
        env
    } else {
        let before = applied(env, ignore_case, pairs, n - 1);
        set_var(before, ignore_case, pairs[n - 1].0, expanded(pairs[n - 1].1, before))
    }
}

/// The environment after all the pairs are applied.
pub open spec fn with_pairs(env: Vars, ignore_case: bool, pairs: Seq<(Seq<char>, Seq<char>)>) -> Vars {
    applied(env, ignore_case, pairs, pairs.len() as int)
}

/// The merged environment: each source is laid over the weaker ones.
pub open spec fn merged(
    process: Vars,
    ignore_case: bool,
    dotenv: Seq<(Seq<char>, Seq<char>)>,
    workspace: Seq<(Seq<char>, Seq<char>)>,
    files: Seq<(Seq<char>, Seq<char>)>,
    task: Seq<(Seq<char>, Seq<char>)>,
) -> Vars {
    let e1 = with_pairs(process, ignore_case, dotenv);
    let e2 = with_pairs(e1, ignore_case, workspace);
    let e3 = with_pairs(e2, ignore_case, files);
    with_pairs(e3, ignore_case, task)
}

/// The names that variables go by, after the first `n` pairs are applied.
pub open spec fn applied_names(
    names: Seq<Seq<char>>,
    ignore_case: bool,
    pairs: Seq<(Seq<char>, Seq<char>)>,
    n: int,
) -> Seq<Seq<char>>
    decreases n,
{
    if n <= 0 {
        names
    } else {
        with_name(applied_names(names, ignore_case, pairs, n - 1), ignore_case, pairs[n - 1].0)
    }
}

/// The names that variables go by, after all the pairs are applied.
pub open spec fn pair_names(
    names: Seq<Seq<char>>,
    ignore_case: bool,
    pairs: Seq<(Seq<char>, Seq<char>)>,
) -> Seq<Seq<char>> {
    applied_names(names, ignore_case, pairs, pairs.len() as int)
}

/// The names that the variables of the merged environment go by.
pub open spec fn merged_names(
    process: Seq<Seq<char>>,
    ignore_case: bool,
    dotenv: Seq<(Seq<char>, Seq<char>)>,
    workspace: Seq<(Seq<char>, Seq<char>)>,
    files: Seq<(Seq<char>, Seq<char>)>,
    task: Seq<(Seq<char>, Seq<char>)>,
) -> Seq<Seq<char>> {
    let n1 = pair_names(process, ignore_case, dotenv);
    let n2 = pair_names(n1, ignore_case, workspace);
    let n3 = pair_names(n2, ignore_case, files);
    pair_names(n3, ignore_case, task)
}

impl EnvMap {
    /// Apply pairs in order, each value expanded against what is there.
    fn apply(&mut self, pairs: &Vec<(String, String)>)
        ensures
            final(self)@ == with_pairs(old(self)@, old(self).ignores_case(), config::pair_views(pairs@)),
            final(self).names() == pair_names(
                old(self).names(),
                old(self).ignores_case(),
                config::pair_views(pairs@),
            ),
            final(self).ignores_case() == old(self).ignores_case(),
    {
        let ghost start = *self;
        let ghost p = config::pair_views(pairs@);
        let mut i: usize = 0;
        while i < pairs.len()
            invariant
                i <= pairs.len(),
                p == config::pair_views(pairs@),
                self@ == applied(start@, start.ignores_case(), p, i as int),
                self.names() == applied_names(start.names(), start.ignores_case(), p, i as int),
                self.ignores_case() == start.ignores_case(),
            decreases pairs.len() - i,
        {
            assert(p[i as int] == (pairs@[i as int].0@, pairs@[i as int].1@));
            let value = expand_value(pairs[i].1.as_str(), self);
            self.insert(pairs[i].0.as_str(), value.as_str());
            i += 1;
        }
    }
}

/// A copy of an environment.
impl Clone for EnvMap {
    fn clone(&self) -> (r: Self)
        ensures
            r@ == self@,
            r.names() == self.names(),
            r.ignores_case() == self.ignores_case(),
    {
        proof {
            use_type_invariant(self);
        }
        let mut entries: Vec<(String, String)> = Vec::new();
        let mut i: usize = 0;
        while i < self.entries.len()
            invariant
                i <= self.entries.len(),
                entries.len() == i,
                forall|j: int|
                    0 <= j < i ==> (#[trigger] entries@[j]).0@ == self.entries@[j].0@
                        && entries@[j].1@ == self.entries@[j].1@,
            decreases self.entries.len() - i,
        {
            let (name, value) = (self.entries[i].0.clone(), self.entries[i].1.clone());
            entries.push((name, value));
            i += 1;
        }
        assert forall|i: int, j: int| 0 <= i < j < entries@.len() implies !same_name(
            self.ignores_case,
            (#[trigger] entries@[i]).0@,
            (#[trigger] entries@[j]).0@,
        ) by {
            assert(!same_name(self.ignores_case, self.entries@[i].0@, self.entries@[j].0@));
        }
        let out = EnvMap { entries, ignores_case: self.ignores_case };
        proof {
            assert(out.names() =~= self.names());
            lemma_names(out);
            lemma_names(*self);
            assert forall|k: Seq<char>| #[trigger] self@.contains_key(k) implies out@[k]
                == self@[k] by {
                let p = self.position(k);
                assert(same_name(self.ignores_case, self.entries@[p].0@, k));
                assert(same_name(out.ignores_case, out.entries@[p].0@, k));
                assert(out.has(k));
                assert(out.position(k) == p);
            }
            assert(out@ =~= self@);
        }
        out
    }
}

/// The merged environment, sources from weakest to strongest.
pub fn build_from(
    process: &EnvMap,
    dotenv: &Vec<(String, String)>,
    workspace: &Vec<(String, String)>,
    files: &Vec<(String, String)>,
    task: &Vec<(String, String)>,
) -> (r: EnvMap)
    ensures
        r@ == merged(
            process@,
            process.ignores_case(),
            config::pair_views(dotenv@),
            config::pair_views(workspace@),
            config::pair_views(files@),
            config::pair_views(task@),
        ),
        r.names() == merged_names(
            process.names(),
            process.ignores_case(),
            config::pair_views(dotenv@),
            config::pair_views(workspace@),
            config::pair_views(files@),
            config::pair_views(task@),
        ),
        r.ignores_case() == process.ignores_case(),
{
    let mut map = process.clone();
    map.apply(dotenv);
    map.apply(workspace);
    map.apply(files);
    map.apply(task);
    map
}

/// The merged environment for a task. `files` are the pairs of its `env_file`s,
/// in listed order.
pub fn build(
    cfg: &Config,
    task: &Task,
    process: &EnvMap,
    dotenv: &Vec<(String, String)>,
    files: &Vec<(String, String)>,
) -> (r: EnvMap)
    ensures
        r@ == merged(
            process@,
            process.ignores_case(),
            config::pair_views(dotenv@),
            cfg@.env,
            config::pair_views(files@),
            task@.env,
        ),
        r.names() == merged_names(
            process.names(),
            process.ignores_case(),
            config::pair_views(dotenv@),
            cfg@.env,
            config::pair_views(files@),
            task@.env,
        ),
        r.ignores_case() == process.ignores_case(),
{
    build_from(process, dotenv, &cfg.env, files, &task.env)
}

/// The directory that a task runs in, and that its `env_file`s are relative to.
pub open spec fn base_dir(root: Seq<char>, t: TaskView) -> Seq<char> {
    match t.dir {
        Some(d) => path::joined_path(root, d),
        None => root,
    }
}

/// The directory that a task runs in, and that its `env_file`s are relative to.
pub fn task_base_dir(root: &str, task: &Task) -> (r: String)
    ensures
        r@ == base_dir(root@, task@),
{
    match &task.dir {
        Some(d) => path::join(root, d.as_str()),
        None => root.to_string(),
    }
}

/// The paths of a task's `env_file`s, in listed order.
pub fn env_file_paths(root: &str, task: &Task) -> (r: Vec<String>)
    ensures
        r.len() == task@.env_files.len(),
        forall|i: int|
            0 <= i < r.len() ==> (#[trigger] r@[i])@ == path::joined_path(
                base_dir(root@, task@),
                task@.env_files[i],
            ),
{
    let base = task_base_dir(root, task);
    let mut out: Vec<String> = Vec::new();
    let mut i: usize = 0;
    while i < task.env_files.len()
        invariant
            i <= task.env_files.len(),
            base@ == base_dir(root@, task@),
            out.len() == i,
            forall|j: int|
                0 <= j < i ==> (#[trigger] out@[j])@ == path::joined_path(
                    base@,
                    task@.env_files[j],
                ),
        decreases task.env_files.len() - i,
    {
        out.push(path::join(base.as_str(), task.env_files[i].as_str()));
        i += 1;
    }
    out
}

/// The pairs of several `.env` texts, one after the other; what could not be
/// read sets nothing.
pub open spec fn files_pairs(files: Seq<Option<String>>, n: int) -> Seq<(Seq<char>, Seq<char>)>
    decreases n,
{
    if n <= 0 {
        Seq::empty()
    } else {
        files_pairs(files, n - 1) + match files[n - 1] {
            Some(s) => dotenv(s@),
            None => Seq::empty(),
        }
    }
}

/// Read a task's `env_file`s, left to right. A file that is missing is skipped.
pub fn load_env_files(files: &Vec<Option<String>>) -> (r: Vec<(String, String)>)
    ensures
        config::pair_views(r@) == files_pairs(files@, files.len() as int),
{
    let mut out: Vec<(String, String)> = Vec::new();
    let mut i: usize = 0;
    assert(config::pair_views(out@) =~= Seq::<(Seq<char>, Seq<char>)>::empty());
    while i < files.len()
        invariant
            i <= files.len(),
            config::pair_views(out@) == files_pairs(files@, i as int),
        decreases files.len() - i,
    {
        let ghost before = config::pair_views(out@);
        match &files[i] {
            Some(s) => {
                let mut more = parse_dotenv(s.as_str());
                let ghost added = config::pair_views(more@);
                out.append(&mut more);
                assert(config::pair_views(out@) =~= before + added);
            },
            None => {
                assert(before + Seq::<(Seq<char>, Seq<char>)>::empty() =~= before);
            },
        }
        i += 1;
    }
    out
}

// ---------------------------------------------------------------------------
// Undefined variables
// ---------------------------------------------------------------------------
/// What is wrong with a task's `run` string in its merged environment: the first
/// variable that is not set, with the place that references it.
pub open spec fn run_vars_error(t: TaskView, env: Vars) -> Option<ErrorView> {
    match t.run {
        None => None,
        Some(run) => match shell::plan(run) {
            Err(e) => Some(e),
            Ok(p) => match shell::first_undefined(shell::plan_vars(p), env) {
                None => None,
                Some(v) => Some(
                    ErrorView::Config(
                        "task '"@ + t.key + "'\n"@ + shell::caret_text(
                            run,
                            shell::Span { start: v.start as usize, end: v.end as usize },
                        ) + "\n  "@ + shell::undefined_text(v.name),
                    ),
                ),
            },
        },
    }
}

/// What is wrong with the first of the tasks, from `from` on, that has something
/// wrong. Keys that name no task are passed over.
pub open spec fn vars_error(
    c: config::ConfigView,
    keys: Seq<Seq<char>>,
    process: Vars,
    ignore_case: bool,
    dotenv: Seq<(Seq<char>, Seq<char>)>,
    files: Seq<Seq<(Seq<char>, Seq<char>)>>,
    from: int,
) -> Option<ErrorView>
    decreases keys.len() - from,
{
    if from >= keys.len() {
        None
    } else {
        match config::find_task(c.tasks, keys[from]) {
            None => vars_error(c, keys, process, ignore_case, dotenv, files, from + 1),
            Some(t) => match run_vars_error(
                t,
                merged(process, ignore_case, dotenv, c.env, files[from], t.env),
            ) {
                Some(e) => Some(e),
                None => vars_error(c, keys, process, ignore_case, dotenv, files, from + 1),
            },
        }
    }
}

/// The pairs of each task's `env_file`s.
pub open spec fn file_views(files: Seq<Vec<(String, String)>>) -> Seq<
    Seq<(Seq<char>, Seq<char>)>,
> {
    Seq::new(files.len(), |i: int| config::pair_views(files[i]@))
}

/// Check one task's `run` string against its merged environment.
fn check_run_vars(task: &Task, env: &EnvMap) -> (r: Result<(), TsrError>)
    ensures
        match r {
            Ok(_) => run_vars_error(task@, env@) is None,
            Err(e) => run_vars_error(task@, env@) == Some(e@),
        },
{
    let run = match &task.run {
        Some(run) => run,
        None => return Ok(()),
    };
    let plan = match shell::parse(run.as_str()) {
        Ok(p) => p,
        Err(e) => return Err(e),
    };
    let vars = plan.referenced_vars();
    let ghost all = shell::plan_vars(plan@);
    let ghost m = env@;
    let mut i: usize = 0;
    assert(all.take(0) =~= Seq::<shell::VarView>::empty());
    while i < vars.len()
        invariant
            i <= vars.len(),
            all == shell::var_views(vars@),
            m == env@,
            task@.run == Some(run@),
            shell::plan(run@) == Ok::<shell::PlanView, ErrorView>(plan@),
            all == shell::plan_vars(plan@),
            shell::first_undefined(all.take(i as int), m) is None,
        decreases vars.len() - i,
    {
        proof {
            assert(all.take(i + 1).drop_last() =~= all.take(i as int));
            assert(all.take(i + 1).last() == vars@[i as int]@);
        }
        if !env.contains_key(vars[i].name.as_str()) {
            proof {
                assert(all.take(i + 1) + all.skip(i + 1) =~= all);
                shell::lemma_first_undefined_concat(all.take(i + 1), all.skip(i + 1), m);
            }
            let mut msg = "task '".to_string();
            msg.append(task.key.as_str());
            msg.append("'\n");
            msg.append(shell::caret(run.as_str(), vars[i].span).as_str());
            msg.append("\n  ");
            let what = text::join3(
                "'$",
                vars[i].name.as_str(),
                "' is not defined in task env, env_file, workspace [env], or .env",
            );
            msg.append(what.as_str());
            return Err(TsrError::Config(msg));
        }
        i += 1;
    }
    assert(all.take(i as int) =~= all);
    Ok(())
}

/// Check that every `$VAR` in the `run` strings of these tasks is set in the
/// task's merged environment. Only the tasks that will run are checked.
/// `files[i]` are the pairs of the `env_file`s of the task `keys[i]`.
pub fn validate_run_vars(
    cfg: &Config,
    keys: &Vec<String>,
    process: &EnvMap,
    dotenv: &Vec<(String, String)>,
    files: &Vec<Vec<(String, String)>>,
) -> (r: Result<(), TsrError>)
    requires
        files.len() == keys.len(),
    ensures
        ({
            let found = vars_error(
                cfg@,
                text::texts(keys@),
                process@,
                process.ignores_case(),
                config::pair_views(dotenv@),
                file_views(files@),
                0,
            );
            match r {
                Ok(_) => found is None,
                Err(e) => found == Some(e@),
            }
        }),
{
    let ghost ks = text::texts(keys@);
    let ghost de = config::pair_views(dotenv@);
    let ghost fs = file_views(files@);
    let mut i: usize = 0;
    while i < keys.len()
        invariant
            i <= keys.len(),
            files.len() == keys.len(),
            ks == text::texts(keys@),
            de == config::pair_views(dotenv@),
            fs == file_views(files@),
            vars_error(cfg@, ks, process@, process.ignores_case(), de, fs, 0) == vars_error(
                cfg@,
                ks,
                process@,
                process.ignores_case(),
                de,
                fs,
                i as int,
            ),
        decreases keys.len() - i,
    {
        assert(ks[i as int] == keys@[i as int]@);
        assert(fs[i as int] == config::pair_views(files@[i as int]@));
        if let Some(task) = cfg.task(keys[i].as_str()) {
            let env = build(cfg, task, process, dotenv, &files[i]);
            match check_run_vars(task, &env) {
                Ok(_) => {},
                Err(e) => return Err(e),
            }
        }
        i += 1;
    }
    Ok(())
}

// ---------------------------------------------------------------------------
// Local binaries
// ---------------------------------------------------------------------------
/// The `node_modules/.bin` directories of the directories from `from` on, up to
/// and with the workspace root.
pub open spec fn bin_dirs(dirs: Seq<Seq<char>>, from: int, root: Seq<char>) -> Seq<Seq<char>>
    decreases dirs.len() - from,
{
    if from >= dirs.len() {
        Seq::empty()
    } else {
        let bin = path::joined_path(dirs[from], "node_modules/.bin"@);
        if dirs[from] == path::slashed(root) {
            seq![bin]
        } else {
            seq![bin] + bin_dirs(dirs, from + 1, root)
        }
    }
}

/// Where a task in `dir` finds local binaries, nearest first: the directories to
/// put in front of `PATH`, as far as they exist.
pub fn node_bin_dirs(dir: &str, root: &str) -> (r: Vec<String>)
    ensures
        text::texts(r@) == bin_dirs(config::upward(dir@), 0, root@),
{
    let dirs = config::ancestors(dir);
    let ghost all = text::texts(dirs@);
    let top = path::to_slash(root);
    let mut out: Vec<String> = Vec::new();
    let mut i: usize = 0;
    assert(text::texts(out@) + bin_dirs(all, 0, root@) =~= bin_dirs(all, 0, root@));
    while i < dirs.len()
        invariant
            i <= dirs.len(),
            all == text::texts(dirs@),
            all == config::upward(dir@),
            top@ == path::slashed(root@),
            text::texts(out@) + bin_dirs(all, i as int, root@) == bin_dirs(all, 0, root@),
        decreases dirs.len() - i,
    {
        let ghost before = text::texts(out@);
        assert(all[i as int] == dirs@[i as int]@);
        let bin = path::join(dirs[i].as_str(), "node_modules/.bin");
        out.push(bin);
        assert(text::texts(out@) =~= before.push(bin@));
        if text::same(dirs[i].as_str(), top.as_str()) {
            assert(text::texts(out@) =~= before + bin_dirs(all, i as int, root@));
            return out;
        }
        assert(text::texts(out@) + bin_dirs(all, i + 1, root@) =~= before + bin_dirs(
            all,
            i as int,
            root@,
        ));
        i += 1;
    }
    assert(text::texts(out@) + Seq::<Seq<char>>::empty() =~= text::texts(out@));
    out
}

/// Whether a path can stand in `PATH`.
pub open spec fn fits_path(bins: Seq<Seq<char>>, sep: char) -> bool {
    forall|i: int| 0 <= i < bins.len() ==> !(#[trigger] bins[i]).contains(sep)
}

/// The environment with these directories in front of `PATH`. With none, or with
/// one that cannot stand in `PATH`, it stays as it is.
pub open spec fn with_bins(env: Vars, ignore_case: bool, bins: Seq<Seq<char>>, sep: char) -> Vars {
    if bins.len() == 0 || !fits_path(bins, sep) {
        env
    } else {
        set_var(
            env,
            ignore_case,
            "PATH"@,
            text::joined(bins, seq![sep]) + seq![sep] + value_or_empty(env, "PATH"@),
        )
    }
}

/// The names that variables go by, with these directories in front of `PATH`.
pub open spec fn bins_names(
    names: Seq<Seq<char>>,
    ignore_case: bool,
    bins: Seq<Seq<char>>,
    sep: char,
) -> Seq<Seq<char>> {
    if bins.len() == 0 || !fits_path(bins, sep) {
        names
    } else {
        with_name(names, ignore_case, "PATH"@)
    }
}

/// Put directories in front of `PATH`, in order, so that locally installed
/// binaries are found. `sep` is what separates the entries.
pub fn prepend_node_bin(env: &mut EnvMap, bins: &Vec<String>, sep: char)
    ensures
        final(env)@ == with_bins(old(env)@, old(env).ignores_case(), text::texts(bins@), sep),
        final(env).names() == bins_names(
            old(env).names(),
            old(env).ignores_case(),
            text::texts(bins@),
            sep,
        ),
        final(env).ignores_case() == old(env).ignores_case(),
{
    let ghost b = text::texts(bins@);
    if bins.len() == 0 {
        return ;
    }
    let mut i: usize = 0;
    while i < bins.len()
        invariant
            i <= bins.len(),
            b == text::texts(bins@),
            *env == *old(env),
            b.len() > 0,
            forall|j: int| 0 <= j < i ==> !(#[trigger] b[j]).contains(sep),
        decreases bins.len() - i,
    {
        let cs = text::chars(bins[i].as_str());
        assert(b[i as int] == cs@);
        let at = text::find(&cs, sep, 0);
        proof {
            text::lemma_index_from(cs@, sep, 0);
        }
        if at < cs.len() {
            assert(b[i as int].contains(sep));
            return ;
        }
        i += 1;
    }
    let sep_text = text::unit(sep);
    let mut value = text::join(bins, sep_text.as_str());
    value.append(sep_text.as_str());
    let ghost front = value@;
    match env.get("PATH") {
        Some(p) => value.append(p.as_str()),
        None => {
            assert(front + Seq::<char>::empty() =~= front);
        },
    }
    env.insert("PATH", value.as_str());
}

/// Whether a program is named by a bare word: no separator and no extension.
pub open spec fn is_bare(program: Seq<char>) -> bool {
    !program.contains('/') && !program.contains('\\') && !program.contains('.')
}

/// A program in a directory, with each of the first `n` extensions.
pub open spec fn with_extensions(
    dir: Seq<char>,
    program: Seq<char>,
    exts: Seq<Seq<char>>,
    n: int,
) -> Seq<Seq<char>>
    decreases n,
{
    if n <= 0 {
        Seq::empty()
    } else {
        with_extensions(dir, program, exts, n - 1).push(
            path::joined_path(dir, program + exts[n - 1]),
        )
    }
}

/// A program in each of the first `n` directories, with each extension.
pub open spec fn in_directories(
    dirs: Seq<Seq<char>>,
    program: Seq<char>,
    exts: Seq<Seq<char>>,
    n: int,
) -> Seq<Seq<char>>
    decreases n,
{
    if n <= 0 {
        Seq::empty()
    } else {
        in_directories(dirs, program, exts, n - 1) + with_extensions(
            dirs[n - 1],
            program,
            exts,
            exts.len() as int,
        )
    }
}

fn holds(cs: &Vec<char>, c: char) -> (r: bool)
    ensures
        r == cs@.contains(c),
{
    proof {
        text::lemma_index_from(cs@, c, 0);
    }
    let at = text::find(cs, c, 0);
    if at < cs.len() {
        assert(cs@[at as int] == c);
        return true;
    }
    false
}

/// Where to look for a program on a platform that tells programs by their
/// extension: in the directories of `path`, in order, with each extension of
/// `extensions`. `;` separates both. A program that is named by a path, or with
/// an extension, is used as it is, and so there is nowhere to look.
pub fn program_candidates(program: &str, path: &str, extensions: &str) -> (r: Vec<String>)
    ensures
        text::texts(r@) == if is_bare(program@) {
            let dirs = text::split(path@, ';');
            in_directories(dirs, program@, text::split(extensions@, ';'), dirs.len() as int)
        } else {
            Seq::<Seq<char>>::empty()
        },
{
    let mut out: Vec<String> = Vec::new();
    let name = text::chars(program);
    assert(text::texts(out@) =~= Seq::<Seq<char>>::empty());
    if holds(&name, '/') || holds(&name, '\\') || holds(&name, '.') {
        return out;
    }
    let dirs = text::split_at_char(&text::chars(path), ';');
    let exts = text::split_at_char(&text::chars(extensions), ';');
    let ghost d = text::texts(dirs@);
    let ghost e = text::texts(exts@);
    assert(d.len() == dirs.len() && e.len() == exts.len());
    let mut i: usize = 0;
    while i < dirs.len()
        invariant
            i <= dirs.len(),
            d == text::texts(dirs@),
            e == text::texts(exts@),
            text::texts(out@) == in_directories(d, program@, e, i as int),
        decreases dirs.len() - i,
    {
        let ghost before = text::texts(out@);
        assert(d[i as int] == dirs@[i as int]@);
        let mut j: usize = 0;
        assert(before + with_extensions(d[i as int], program@, e, 0) =~= before);
        while j < exts.len()
            invariant
                i < dirs.len(),
                j <= exts.len(),
                d == text::texts(dirs@),
                d[i as int] == dirs@[i as int]@,
                e == text::texts(exts@),
                text::texts(out@) == before + with_extensions(d[i as int], program@, e, j as int),
            decreases exts.len() - j,
        {
            let ghost now = text::texts(out@);
            assert(e[j as int] == exts@[j as int]@);
            let file = text::join2(program, exts[j].as_str());
            let here = path::join(dirs[i].as_str(), file.as_str());
            out.push(here);
            assert(text::texts(out@) =~= now.push(here@));
            assert(text::texts(out@) =~= before + with_extensions(
                d[i as int],
                program@,
                e,
                j + 1,
            ));
            j += 1;
        }
        assert(e.len() == exts.len());
        i += 1;
    }
    assert(d.len() == dirs.len());
    out
}

// ---------------------------------------------------------------------------
// Laws
// ---------------------------------------------------------------------------
/// Whether a list of pairs sets a variable.
pub open spec fn sets(pairs: Seq<(Seq<char>, Seq<char>)>, ignore_case: bool, key: Seq<char>) -> bool {
    exists|i: int| 0 <= i < pairs.len() && same_name(ignore_case, key, (#[trigger] pairs[i]).0)
}

/// Applying pairs never drops a variable, and leaves those it does not set as
/// they were.
pub proof fn law_merge_never_wipes(
    env: Vars,
    ignore_case: bool,
    pairs: Seq<(Seq<char>, Seq<char>)>,
    n: int,
    key: Seq<char>,
)
    requires
        n <= pairs.len(),
    ensures
        env.contains_key(key) ==> applied(env, ignore_case, pairs, n).contains_key(key),
        (forall|i: int| 0 <= i < n ==> !same_name(ignore_case, key, (#[trigger] pairs[i]).0)) ==> applied(
            env,
            ignore_case,
            pairs,
            n,
        ).contains_key(key) == env.contains_key(key) && (env.contains_key(key) ==> applied(
            env,
            ignore_case,
            pairs,
            n,
        )[key] == env[key]),
    decreases n,
{
    if n > 0 {
        law_merge_never_wipes(env, ignore_case, pairs, n - 1, key);
    }
}

/// The last pair that sets a variable decides its value, which is expanded against
/// everything applied before that pair: earlier pairs are visible, later ones
/// are not.
pub proof fn law_last_pair_wins(
    env: Vars,
    ignore_case: bool,
    pairs: Seq<(Seq<char>, Seq<char>)>,
    n: int,
    at: int,
    key: Seq<char>,
)
    requires
        0 <= at < n <= pairs.len(),
        same_name(ignore_case, key, pairs[at].0),
        forall|i: int| at < i < n ==> !same_name(ignore_case, key, (#[trigger] pairs[i]).0),
    ensures
        applied(env, ignore_case, pairs, n).contains_key(key),
        applied(env, ignore_case, pairs, n)[key] == expanded(
            pairs[at].1,
            applied(env, ignore_case, pairs, at),
        ),
    decreases n,
{
    if at < n - 1 {
        law_last_pair_wins(env, ignore_case, pairs, n - 1, at, key);
    }
}

/// Precedence, strongest first: task env, env_file, workspace `[env]`, `.env`,
/// process env. Where no stronger source sets a variable, the next one decides it.
pub proof fn law_precedence(
    process: Vars,
    ignore_case: bool,
    dotenv: Seq<(Seq<char>, Seq<char>)>,
    workspace: Seq<(Seq<char>, Seq<char>)>,
    files: Seq<(Seq<char>, Seq<char>)>,
    task: Seq<(Seq<char>, Seq<char>)>,
    key: Seq<char>,
)
    ensures
        ({
            let all = merged(process, ignore_case, dotenv, workspace, files, task);
            let e1 = with_pairs(process, ignore_case, dotenv);
            let e2 = with_pairs(e1, ignore_case, workspace);
            let e3 = with_pairs(e2, ignore_case, files);
            let in_task = sets(task, ignore_case, key);
            let in_files = sets(files, ignore_case, key);
            let in_workspace = sets(workspace, ignore_case, key);
            let in_dotenv = sets(dotenv, ignore_case, key);
            &&& process.contains_key(key) || in_dotenv || in_workspace || in_files || in_task
                <==> all.contains_key(key)
            &&& !in_task && all.contains_key(key) ==> all[key] == e3[key]
            &&& !in_task && !in_files && all.contains_key(key) ==> all[key] == e2[key]
            &&& !in_task && !in_files && !in_workspace && all.contains_key(key) ==> all[key]
                == e1[key]
            &&& !in_task && !in_files && !in_workspace && !in_dotenv && all.contains_key(key)
                ==> all[key] == process[key]
        }),
{
    let e1 = with_pairs(process, ignore_case, dotenv);
    let e2 = with_pairs(e1, ignore_case, workspace);
    let e3 = with_pairs(e2, ignore_case, files);
    lemma_layer(process, ignore_case, dotenv, key);
    lemma_layer(e1, ignore_case, workspace, key);
    lemma_layer(e2, ignore_case, files, key);
    lemma_layer(e3, ignore_case, task, key);
}

proof fn lemma_layer(env: Vars, ignore_case: bool, pairs: Seq<(Seq<char>, Seq<char>)>, key: Seq<char>)
    ensures
        with_pairs(env, ignore_case, pairs).contains_key(key) <==> env.contains_key(key) || sets(
            pairs,
            ignore_case,
            key,
        ),
        !sets(pairs, ignore_case, key) && env.contains_key(key) ==> with_pairs(env, ignore_case, pairs)[key]
            == env[key],
{
    let n = pairs.len() as int;
    law_merge_never_wipes(env, ignore_case, pairs, n, key);
    if sets(pairs, ignore_case, key) {
        let i = choose|i: int|
            0 <= i < pairs.len() && same_name(ignore_case, key, (#[trigger] pairs[i]).0);
        lemma_set_key_is_there(env, ignore_case, pairs, n, i, key);
    }
}

proof fn lemma_set_key_is_there(
    env: Vars,
    ignore_case: bool,
    pairs: Seq<(Seq<char>, Seq<char>)>,
    n: int,
    i: int,
    key: Seq<char>,
)
    requires
        0 <= i < n <= pairs.len(),
        same_name(ignore_case, key, pairs[i].0),
    ensures
        applied(env, ignore_case, pairs, n).contains_key(key),
    decreases n,
{
    if i < n - 1 {
        lemma_set_key_is_there(env, ignore_case, pairs, n - 1, i, key);
    }
}

proof fn lemma_set_stays_caseless(env: Vars, ignore_case: bool, name: Seq<char>, value: Seq<char>)
    requires
        is_caseless(env, ignore_case),
    ensures
        is_caseless(set_var(env, ignore_case, name, value), ignore_case),
{
}

/// Where the case of a name does not count, a variable has one value under all its
/// names, and applying pairs keeps it so.
pub proof fn law_names_stay_caseless(
    env: Vars,
    ignore_case: bool,
    pairs: Seq<(Seq<char>, Seq<char>)>,
    n: int,
)
    requires
        is_caseless(env, ignore_case),
        n <= pairs.len(),
    ensures
        is_caseless(applied(env, ignore_case, pairs, n), ignore_case),
    decreases n,
{
    if n > 0 {
        law_names_stay_caseless(env, ignore_case, pairs, n - 1);
        let before = applied(env, ignore_case, pairs, n - 1);
        lemma_set_stays_caseless(before, ignore_case, pairs[n - 1].0, expanded(pairs[n - 1].1, before));
    }
}

/// The names that variables go by never change: pairs are written back under the
/// names already in use, and new variables come behind them.
pub proof fn law_names_in_use_stay(
    names: Seq<Seq<char>>,
    ignore_case: bool,
    pairs: Seq<(Seq<char>, Seq<char>)>,
    n: int,
)
    requires
        n <= pairs.len(),
    ensures
        names.is_prefix_of(applied_names(names, ignore_case, pairs, n)),
    decreases n,
{
    if n > 0 {
        law_names_in_use_stay(names, ignore_case, pairs, n - 1);
    } else {
        assert(names.is_prefix_of(names));
    }
}

/// Quotes around a value are taken off where they match, one pair of them, and
/// nothing else is.
pub proof fn law_unquoting(q: char, inner: Seq<char>, v: Seq<char>)
    requires
        q == '"' || q == '\'',
    ensures
        unquoted(seq![q] + inner + seq![q]) == inner,
        v.len() < 2 || v[0] != v[v.len() - 1] || (v[0] != '"' && v[0] != '\'') ==> unquoted(v) == v,
{
    let s = seq![q] + inner + seq![q];
    assert(s.subrange(1, s.len() - 1) =~= inner);
}

proof fn lemma_index_of(a: Seq<char>, c: char, b: Seq<char>)
    requires
        !a.contains(c),
    ensures
        text::index_from(a + seq![c] + b, c, 0) == a.len(),
{
    let s = a + seq![c] + b;
    text::lemma_index_from(s, c, 0);
    let i = text::index_from(s, c, 0);
    assert(s[a.len() as int] == c);
    if i < a.len() {
        assert(a[i] == s[i]);
        assert(a.contains(c));
    }
}

proof fn lemma_not_exported(line: Seq<char>, k: Seq<char>, rest: Seq<char>)
    requires
        line == k + rest,
        forall|i: int| 0 <= i < k.len() ==> !text::is_space(#[trigger] k[i]),
        rest.len() > 0,
        rest[0] == '=' || (text::is_space(rest[0]) && k != "export"@),
    ensures
        text::after_prefix(line, "export "@) is None,
{
    reveal_strlit("export ");
    reveal_strlit("export");
    if text::has_prefix(line, "export "@) {
        let p = "export "@;
        assert forall|i: int| 0 <= i < 7 implies line[i] == p[i] by {
            assert(line.take(7)[i] == line[i]);
        }
        assert(line[6] == ' ');
        if k.len() > 6 {
            assert(k[6] == ' ');
        } else if k.len() < 6 {
            assert(line[k.len() as int] == rest[0]);
            assert(line[k.len() as int] == p[k.len() as int]);
        } else {
            assert(rest[0] == line[6]);
            assert(k =~= "export"@) by {
                assert forall|i: int| 0 <= i < 6 implies k[i] == "export"@[i] by {
                    assert(k[i] == line[i]);
                }
            }
        }
    }
}

/// A line of a `.env` file sets what stands in front of its first `=` to all that
/// stands behind it, whatever that holds, further `=` included. White space around
/// the line, the key and the value does not count, nor does an `export` in front, nor
/// a pair of quotes around the value.
#[verifier::spinoff_prover]
#[verifier::rlimit(80)]
pub proof fn law_dotenv_pairs(
    front: Seq<char>,
    exported: bool,
    key: Seq<char>,
    before: Seq<char>,
    behind: Seq<char>,
    value: Seq<char>,
    back: Seq<char>,
)
    requires
        forall|i: int| 0 <= i < front.len() ==> text::is_space(#[trigger] front[i]),
        forall|i: int| 0 <= i < before.len() ==> text::is_space(#[trigger] before[i]),
        forall|i: int| 0 <= i < behind.len() ==> text::is_space(#[trigger] behind[i]),
        forall|i: int| 0 <= i < back.len() ==> text::is_space(#[trigger] back[i]),
        key.len() > 0,
        key[0] != '#',
        forall|i: int| 0 <= i < key.len() ==> (#[trigger] key[i]) != '=' && !text::is_space(key[i]),
        before.len() > 0 ==> key != "export"@,
        value.len() > 0 ==> !text::is_space(value[0]) && !text::is_space(value[value.len() - 1]),
        value.len() == 0 ==> behind.len() == 0,
    ensures
        ({
            let line = key + before + seq!['='] + behind + value;
            let raw = if exported {
                front + ("export "@ + line) + back
            } else {
                front + line + back
            };
            &&& value.len() >= 2 && value[0] == value[value.len() - 1] && (value[0] == '"'
                || value[0] == '\'') ==> dotenv_line(raw) == Some(
                (key, value.subrange(1, value.len() - 1)),
            )
            &&& !(value.len() >= 2 && value[0] == value[value.len() - 1] && (value[0] == '"'
                || value[0] == '\'')) ==> dotenv_line(raw) == Some((key, value))
        }),
{
    reveal_strlit("export ");
    let none = Seq::<char>::empty();
    let left = key + before;
    let right = behind + value;
    let line = key + before + seq!['='] + behind + value;
    assert(line =~= left + seq!['='] + right);
    assert(line[0] == key[0]);
    assert(!text::is_space(key[0]));
    if value.len() > 0 {
        assert(line[line.len() - 1] == value[value.len() - 1]);
    } else {
        assert(right =~= none);
        assert(line[line.len() - 1] == '=');
        text::law_white_space('=');
    }
    let full = if exported {
        "export "@ + line
    } else {
        line
    };
    text::law_white_space('e');
    if exported {
        assert(full[0] == 'e');
        assert(full[full.len() - 1] == line[line.len() - 1]);
    }
    text::law_trimming(front, full, back);
    // What follows `export` is the line itself.
    text::law_trimming(none, line, none);
    assert(none + line + none =~= line);
    assert(line + none =~= line);
    if exported {
        text::law_prefixes(full, "export "@, line);
    } else {
        assert(line =~= key + (before + seq!['='] + right));
        lemma_not_exported(line, key, before + seq!['='] + right);
    }
    assert(!left.contains('=')) by {
        text::law_white_space('=');
        assert forall|i: int| 0 <= i < left.len() implies left[i] != '=' by {
            if i < key.len() {
                assert(left[i] == key[i]);
            } else {
                assert(left[i] == before[i - key.len()]);
            }
        }
    }
    lemma_index_of(left, '=', right);
    assert(line.take(left.len() as int) =~= left);
    assert(line.skip(left.len() as int + 1) =~= right);
    assert(!text::is_space(key[key.len() - 1]));
    text::law_trimming(none, key, before);
    assert(none + key + before =~= left);
    text::law_trimming(behind, value, none);
    assert(behind + value + none =~= right);
}

/// Lines that set nothing: blank ones, those that begin with `#`, and those without
/// `=` or without anything in front of it.
pub proof fn law_dotenv_lines_that_set_nothing(raw: Seq<char>, rest: Seq<char>)
    ensures
        text::trimmed(raw).len() == 0 ==> dotenv_line(raw) is None,
        text::trimmed(raw).len() > 0 && text::trimmed(raw)[0] == '#' ==> dotenv_line(raw) is None,
        !raw.contains('=') ==> dotenv_line(raw) is None,
        text::trimmed(raw) == seq!['='] + rest ==> dotenv_line(raw) is None,
{
    reveal_strlit("export ");
    let line = text::trimmed(raw);
    text::lemma_trimmed(raw, '=');
    if !raw.contains('=') && line.len() > 0 && line[0] != '#' {
        let rest = match text::after_prefix(line, "export "@) {
            Some(r) => r,
            None => line,
        };
        text::law_prefixes(line, "export "@, rest);
        let body = text::trimmed_start(rest);
        assert(!rest.contains('=')) by {
            if rest.contains('=') {
                let i = choose|i: int| 0 <= i < rest.len() && rest[i] == '=';
                if text::after_prefix(line, "export "@) is Some {
                    assert(line[7 + i] == '=');
                }
                assert(line.contains('='));
            }
        }
        lemma_start_holds(rest, '=');
        text::lemma_index_from(body, '=', 0);
        let eq = text::index_from(body, '=', 0);
        if eq < body.len() {
            assert(body.contains('='));
        }
    }
    if line == seq!['='] + rest {
        text::law_white_space('=');
        assert(line[0] == '=');
        if text::has_prefix(line, "export "@) {
            assert(line.take(7)[0] == line[0]);
        }
        assert(text::trimmed_start(line) == line);
        lemma_index_of(Seq::empty(), '=', rest);
        assert(Seq::<char>::empty() + seq!['='] + rest =~= line);
        assert(line.take(0) =~= Seq::empty());
        text::law_trimming(Seq::empty(), Seq::empty(), Seq::empty());
        assert(Seq::<char>::empty() + Seq::<char>::empty() + Seq::<char>::empty() =~= Seq::<
            char,
        >::empty());
    }
}

proof fn lemma_start_holds(s: Seq<char>, c: char)
    requires
        !s.contains(c),
    ensures
        !text::trimmed_start(s).contains(c),
    decreases s.len(),
{
    if s.len() > 0 && text::is_space(s[0]) {
        let t = s.drop_first();
        if t.contains(c) {
            let i = choose|i: int| 0 <= i < t.len() && t[i] == c;
            assert(s[i + 1] == c);
        }
        lemma_start_holds(t, c);
    }
}

/// A `.env` file sets what each of its lines does, in order.
pub proof fn law_dotenv_files(lines: Seq<Seq<char>>, last: Seq<char>)
    requires
        lines.len() > 0,
        forall|i: int| 0 <= i < lines.len() ==> !(#[trigger] lines[i]).contains('\n'),
        !last.contains('\n'),
    ensures
        ({
            let s = text::joined(lines, seq!['\n']);
            dotenv(s + seq!['\n'] + last) == match dotenv_line(last) {
                Some(pair) => dotenv(s).push(pair),
                None => dotenv(s),
            }
        }),
        dotenv(last) == match dotenv_line(last) {
            Some(pair) => seq![pair],
            None => Seq::empty(),
        },
{
    let all = lines.push(last);
    let s = text::joined(lines, seq!['\n']);
    text::law_joining(lines, seq![last], seq!['\n']);
    assert(lines + seq![last] =~= all);
    text::law_splitting(s, lines, '\n');
    assert forall|i: int| 0 <= i < all.len() implies !(#[trigger] all[i]).contains('\n') by {
        if i < lines.len() {
            assert(all[i] == lines[i]);
        }
    }
    text::law_splitting(s, all, '\n');
    lemma_dotenv_prefix(lines, all, lines.len() as int);
    text::law_splitting(s, seq![last], '\n');
    assert(text::joined(seq![last], seq!['\n']) == last);
    let one = seq![last];
    assert(dotenv_lines(one, 0) =~= Seq::empty());
    assert(dotenv(last) == dotenv_lines(one, 1));
    assert(Seq::empty().push(dotenv_line(last)->0) =~= seq![dotenv_line(last)->0]);
}

proof fn lemma_dotenv_prefix(a: Seq<Seq<char>>, b: Seq<Seq<char>>, n: int)
    requires
        n <= a.len() <= b.len(),
        forall|i: int| 0 <= i < a.len() ==> #[trigger] a[i] == b[i],
    ensures
        dotenv_lines(a, n) == dotenv_lines(b, n),
    decreases n,
{
    if n > 0 {
        lemma_dotenv_prefix(a, b, n - 1);
        assert(a[n - 1] == b[n - 1]);
    }
}

/// Several `env_file`s set what each of them does, one after the other; one that is
/// missing sets nothing.
pub proof fn law_env_files_add_up(files: Seq<Option<String>>, n: int)
    requires
        0 < n <= files.len(),
    ensures
        files[n - 1] is None ==> files_pairs(files, n) == files_pairs(files, n - 1),
        files[n - 1] matches Some(s) ==> files_pairs(files, n) == files_pairs(files, n - 1)
            + dotenv(s@),
        files_pairs(files, 0) == Seq::<(Seq<char>, Seq<char>)>::empty(),
{
    assert(files_pairs(files, n - 1) + Seq::<(Seq<char>, Seq<char>)>::empty() =~= files_pairs(
        files,
        n - 1,
    ));
}

proof fn lemma_index_shift(x: Seq<char>, y: Seq<char>, c: char, k: int)
    requires
        0 <= k <= y.len(),
    ensures
        text::index_from(x + y, c, x.len() + k) == x.len() + text::index_from(y, c, k),
    decreases y.len() - k,
{
    if k < y.len() {
        assert((x + y)[x.len() + k] == y[k]);
        lemma_index_shift(x, y, c, k + 1);
    }
}

proof fn lemma_name_shift(x: Seq<char>, y: Seq<char>, k: int)
    requires
        0 <= k <= y.len(),
    ensures
        shell::name_end(x + y, x.len() + k) == x.len() + shell::name_end(y, k),
    decreases y.len() - k,
{
    if k < y.len() {
        assert((x + y)[x.len() + k] == y[k]);
        lemma_name_shift(x, y, k + 1);
    }
}

proof fn lemma_reference_shift(x: Seq<char>, y: Seq<char>, k: int)
    requires
        0 <= k <= y.len(),
    ensures
        reference(x + y, x.len() + k) == match reference(y, k) {
            Some((name, next)) => Some((name, x.len() + next)),
            None => None,
        },
{
    if k < y.len() {
        assert((x + y)[x.len() + k] == y[k]);
        lemma_index_shift(x, y, '}', k + 1);
        lemma_name_shift(x, y, k);
        text::lemma_index_from(y, '}', k + 1);
        shell::lemma_name_end(y, k);
        let close = text::index_from(y, '}', k + 1);
        assert((x + y).subrange(x.len() + k + 1, x.len() + close) =~= y.subrange(k + 1, close));
        let end = shell::name_end(y, k);
        assert((x + y).subrange(x.len() + k, x.len() + end) =~= y.subrange(k, end));
    }
}

proof fn lemma_expanded_shift(x: Seq<char>, y: Seq<char>, k: int, env: Vars)
    requires
        0 <= k <= y.len(),
    ensures
        expanded_from(x + y, x.len() + k, env) == expanded_from(y, k, env),
    decreases y.len() - k,
{
    if k < y.len() {
        assert((x + y)[x.len() + k] == y[k]);
        lemma_reference_shift(x, y, k + 1);
        lemma_reference_advances(y, k + 1);
        lemma_expanded_shift(x, y, k + 1, env);
        if let Some((_, next)) = reference(y, k + 1) {
            lemma_expanded_shift(x, y, next, env);
        }
    }
}

/// Text without a `$` is kept as it is.
pub proof fn law_plain_text_is_kept(plain: Seq<char>, rest: Seq<char>, env: Vars)
    requires
        !plain.contains('$'),
    ensures
        expanded(plain + rest, env) == plain + expanded(rest, env),
        expanded(plain, env) == plain,
        expanded(Seq::empty(), env) == Seq::<char>::empty(),
    decreases plain.len(),
{
    let none = Seq::<char>::empty();
    if plain.len() == 0 {
        assert(plain + rest =~= rest);
        assert(none + expanded(rest, env) =~= expanded(rest, env));
        assert(plain =~= none);
    } else {
        let tail = plain.drop_first();
        assert(!tail.contains('$')) by {
            if tail.contains('$') {
                let i = choose|i: int| 0 <= i < tail.len() && tail[i] == '$';
                assert(plain[i + 1] == '$');
            }
        }
        law_plain_text_is_kept(tail, rest, env);
        let head = seq![plain[0]];
        assert(plain[0] != '$');
        assert(plain + rest =~= head + (tail + rest));
        assert(plain =~= head + tail);
        lemma_expanded_shift(head, tail + rest, 0, env);
        lemma_expanded_shift(head, tail, 0, env);
        assert((plain + rest)[0] == plain[0]);
        assert(expanded(plain + rest, env) =~= plain + expanded(rest, env));
        assert(expanded(plain, env) =~= head + tail);
    }
}

/// `${name}` stands for the value of a variable, up to the first `}`, and for
/// nothing where it is not set.
pub proof fn law_braced_references(name: Seq<char>, rest: Seq<char>, env: Vars)
    requires
        name.len() > 0,
        !name.contains('}'),
    ensures
        expanded(seq!['$', '{'] + name + seq!['}'] + rest, env) == (if env.contains_key(name) {
            env[name]
        } else {
            Seq::empty()
        }) + expanded(rest, env),
{
    let x = seq!['$', '{'];
    let y = name + seq!['}'] + rest;
    let s = x + name + seq!['}'] + rest;
    assert(s =~= x + y);
    lemma_index_shift(x, y, '}', 0);
    lemma_index_of(name, '}', rest);
    assert(s[0] == '$' && s[1] == '{');
    let close = text::index_from(s, '}', 2);
    assert(close == 2 + name.len());
    assert(s.subrange(2, close) =~= name);
    let front = x + name + seq!['}'];
    assert(s =~= front + rest);
    lemma_expanded_shift(front, rest, 0, env);
    assert(reference(s, 1) == Some((name, close + 1)));
}

proof fn lemma_name_end_at(s: Seq<char>, from: int, n: int)
    requires
        0 <= from <= n <= s.len(),
        forall|i: int| from <= i < n ==> text::is_name_char(#[trigger] s[i]),
        n < s.len() ==> !text::is_name_char(s[n]),
    ensures
        shell::name_end(s, from) == n,
    decreases n - from,
{
    if from < n {
        assert(text::is_name_char(s[from]));
        lemma_name_end_at(s, from + 1, n);
    }
}

/// `$name` stands for the value of a variable, the name being the longest run of
/// letters, digits and `_`, and for nothing where it is not set.
pub proof fn law_bare_references(name: Seq<char>, rest: Seq<char>, env: Vars)
    requires
        name.len() > 0,
        !('0' <= name[0] && name[0] <= '9'),
        forall|i: int|
            0 <= i < name.len() ==> {
                let c = #[trigger] name[i];
                ('a' <= c && c <= 'z') || ('A' <= c && c <= 'Z') || ('0' <= c && c <= '9') || c == '_'
            },
        rest.len() > 0 ==> {
            let c = rest[0];
            !('a' <= c && c <= 'z') && !('A' <= c && c <= 'Z') && !('0' <= c && c <= '9') && c != '_'
        },
    ensures
        expanded(seq!['$'] + name + rest, env) == (if env.contains_key(name) {
            env[name]
        } else {
            Seq::empty()
        }) + expanded(rest, env),
{
    let s = seq!['$'] + name + rest;
    let n = 1 + name.len() as int;
    assert forall|i: int| 1 <= i < n implies text::is_name_char(#[trigger] s[i]) by {
        assert(s[i] == name[i - 1]);
    }
    if n < s.len() {
        assert(s[n] == rest[0]);
    }
    lemma_name_end_at(s, 1, n);
    assert(s[0] == '$' && s[1] == name[0]);
    assert(s.subrange(1, n) =~= name);
    let front = seq!['$'] + name;
    assert(s =~= front + rest);
    lemma_expanded_shift(front, rest, 0, env);
    assert(reference(s, 1) == Some((name, n)));
}

/// A `$` that no name follows, and one before an empty or unclosed `{`, is just a
/// dollar sign.
pub proof fn law_lone_dollars(rest: Seq<char>, env: Vars)
    requires
        rest.len() == 0 || {
            let c = rest[0];
            !('a' <= c && c <= 'z') && !('A' <= c && c <= 'Z') && c != '_' && (c == '{'
                ==> !rest.contains('}') || (rest.len() > 1 && rest[1] == '}'))
        },
    ensures
        expanded(seq!['$'] + rest, env) == seq!['$'] + expanded(rest, env),
{
    let s = seq!['$'] + rest;
    lemma_expanded_shift(seq!['$'], rest, 0, env);
    assert(s[0] == '$');
    if rest.len() > 0 {
        assert(s[1] == rest[0]);
        if rest[0] == '{' {
            text::lemma_index_from(s, '}', 2);
            let close = text::index_from(s, '}', 2);
            if close < s.len() {
                assert(rest[close - 1] == '}');
                assert(rest.contains('}'));
                assert(s[2] == rest[1]);
                assert(close == 2);
            }
        }
    }
    assert(reference(s, 1) is None);
}

/// Names are told apart by every character, but for the case of ASCII letters where
/// the platform ignores it.
pub proof fn law_names(a: Seq<char>, b: Seq<char>)
    ensures
        same_name(false, a, b) <==> a == b,
        same_name(true, a, b) <==> a.len() == b.len() && forall|i: int|
            0 <= i < a.len() ==> {
                let x = #[trigger] a[i] as int;
                let y = b[i] as int;
                x == y || (97 <= x <= 122 && y == x - 32) || (97 <= y <= 122 && x == y - 32)
            },
{
    let f = folded(a, true);
    let g = folded(b, true);
    if same_name(true, a, b) {
        assert(f.len() == g.len());
        assert forall|i: int| 0 <= i < a.len() implies {
            let x = #[trigger] a[i] as int;
            let y = b[i] as int;
            x == y || (97 <= x <= 122 && y == x - 32) || (97 <= y <= 122 && x == y - 32)
        } by {
            assert(f[i] == g[i]);
        }
    }
    if a.len() == b.len() && forall|i: int|
        0 <= i < a.len() ==> {
            let x = #[trigger] a[i] as int;
            let y = b[i] as int;
            x == y || (97 <= x <= 122 && y == x - 32) || (97 <= y <= 122 && x == y - 32)
        } {
        assert(f =~= g);
    }
}

/// Directories of local binaries come in front of `PATH`, in order, and what was
/// there stays behind them. Every other variable is as it was; without directories,
/// or with one that cannot stand in `PATH`, so is `PATH`.
pub proof fn law_local_binaries_come_first(
    env: Vars,
    ignore_case: bool,
    bins: Seq<Seq<char>>,
    sep: char,
    other: Seq<char>,
)
    requires
        !same_name(ignore_case, other, "PATH"@),
    ensures
        ({
            let after = with_bins(env, ignore_case, bins, sep);
            let usable = bins.len() > 0 && forall|i: int, j: int|
                0 <= i < bins.len() && 0 <= j < bins[i].len() ==> #[trigger] bins[i][j] != sep;
            let old = if env.contains_key("PATH"@) {
                env["PATH"@]
            } else {
                Seq::empty()
            };
            &&& !usable ==> after == env
            &&& usable ==> after.contains_key("PATH"@) && after["PATH"@] == text::joined(
                bins,
                seq![sep],
            ) + seq![sep] + old
            &&& after.contains_key(other) == env.contains_key(other)
            &&& env.contains_key(other) ==> after[other] == env[other]
        }),
{
    if bins.len() > 0 && fits_path(bins, sep) {
        assert forall|i: int, j: int|
            0 <= i < bins.len() && 0 <= j < bins[i].len() implies #[trigger] bins[i][j] != sep by {
            assert(!bins[i].contains(sep));
        }
    }
    if forall|i: int, j: int|
        0 <= i < bins.len() && 0 <= j < bins[i].len() ==> #[trigger] bins[i][j] != sep {
        assert(fits_path(bins, sep));
    }
}

proof fn lemma_bin_dirs(dirs: Seq<Seq<char>>, from: int, k: int, root: Seq<char>)
    requires
        0 <= from <= k < dirs.len(),
        dirs[k] == path::slashed(root),
        forall|i: int| from <= i < k ==> (#[trigger] dirs[i]) != path::slashed(root),
    ensures
        bin_dirs(dirs, from, root) == Seq::new(
            (k + 1 - from) as nat,
            |i: int| path::joined_path(dirs[from + i], "node_modules/.bin"@),
        ),
    decreases k - from,
{
    let owed = Seq::new(
        (k + 1 - from) as nat,
        |i: int| path::joined_path(dirs[from + i], "node_modules/.bin"@),
    );
    if from < k {
        lemma_bin_dirs(dirs, from + 1, k, root);
        assert(bin_dirs(dirs, from, root) =~= owed);
    } else {
        assert(bin_dirs(dirs, from, root) =~= owed);
    }
}

/// Local binaries are looked for in the task's directory first and then in each one
/// above it, up to and with the workspace root and no further.
pub proof fn law_binaries_up_to_the_root(dirs: Seq<Seq<char>>, k: int, root: Seq<char>)
    requires
        0 <= k < dirs.len(),
        dirs[k] == path::slashed(root),
        forall|i: int| 0 <= i < k ==> (#[trigger] dirs[i]) != path::slashed(root),
    ensures
        bin_dirs(dirs, 0, root).len() == k + 1,
        forall|i: int|
            0 <= i <= k ==> #[trigger] bin_dirs(dirs, 0, root)[i] == path::joined_path(
                dirs[i],
                "node_modules/.bin"@,
            ),
{
    lemma_bin_dirs(dirs, 0, k, root);
}

/// Programs are looked for in each directory, in order, with each extension, in
/// order.
pub proof fn law_where_programs_are_looked_for(
    dirs: Seq<Seq<char>>,
    program: Seq<char>,
    exts: Seq<Seq<char>>,
    d: int,
    e: int,
)
    requires
        0 <= d < dirs.len(),
        0 <= e < exts.len(),
    ensures
        ({
            let before = in_directories(dirs, program, exts, d);
            let all = in_directories(dirs, program, exts, d + 1);
            &&& all.len() == before.len() + exts.len()
            &&& all.take(before.len() as int) == before
            &&& all[before.len() + e] == path::joined_path(dirs[d], program + exts[e])
        }),
        in_directories(dirs, program, exts, 0).len() == 0,
{
    lemma_with_extensions(dirs[d], program, exts, exts.len() as int, e);
    let before = in_directories(dirs, program, exts, d);
    let all = in_directories(dirs, program, exts, d + 1);
    assert(all.take(before.len() as int) =~= before);
}

proof fn lemma_with_extensions(
    dir: Seq<char>,
    program: Seq<char>,
    exts: Seq<Seq<char>>,
    n: int,
    e: int,
)
    requires
        0 <= n <= exts.len(),
    ensures
        with_extensions(dir, program, exts, n).len() == n,
        0 <= e < n ==> with_extensions(dir, program, exts, n)[e] == path::joined_path(
            dir,
            program + exts[e],
        ),
    decreases n,
{
    if n > 0 {
        lemma_with_extensions(dir, program, exts, n - 1, e);
    }
}

proof fn lemma_all_defined(vars: Seq<shell::VarView>, env: Vars, v: int)
    requires
        0 <= v < vars.len(),
        shell::first_undefined(vars, env) is None,
    ensures
        env.contains_key(vars[v].name),
    decreases vars.len(),
{
    if v < vars.len() - 1 {
        lemma_all_defined(vars.drop_last(), env, v);
    }
}

proof fn lemma_none_undefined(vars: Seq<shell::VarView>, env: Vars)
    requires
        forall|v: int| 0 <= v < vars.len() ==> env.contains_key((#[trigger] vars[v]).name),
    ensures
        shell::first_undefined(vars, env) is None,
    decreases vars.len(),
{
    if vars.len() > 0 {
        assert forall|v: int| 0 <= v < vars.drop_last().len() implies env.contains_key(
            (#[trigger] vars.drop_last()[v]).name,
        ) by {
            assert(vars[v].name == vars.drop_last()[v].name);
        }
        lemma_none_undefined(vars.drop_last(), env);
        assert(env.contains_key(vars[vars.len() - 1].name));
    }
}

/// A run is refused exactly if one of its tasks has a `run` string that cannot be
/// parsed or that references a variable its merged environment does not set.
pub proof fn law_undefined_variables_are_refused(
    c: config::ConfigView,
    keys: Seq<Seq<char>>,
    process: Vars,
    ignore_case: bool,
    dotenv: Seq<(Seq<char>, Seq<char>)>,
    files: Seq<Seq<(Seq<char>, Seq<char>)>>,
    from: int,
)
    requires
        0 <= from <= keys.len(),
    ensures
        vars_error(c, keys, process, ignore_case, dotenv, files, from) is None <==> forall|k: int|
            from <= k < keys.len() ==> match config::find_task(c.tasks, #[trigger] keys[k]) {
                None => true,
                Some(t) => match t.run {
                    None => true,
                    Some(run) => shell::plan(run) matches Ok(p) && forall|v: int|
                        0 <= v < shell::plan_vars(p).len() ==> merged(
                            process,
                            ignore_case,
                            dotenv,
                            c.env,
                            files[k],
                            t.env,
                        ).contains_key((#[trigger] shell::plan_vars(p)[v]).name),
                },
            },
    decreases keys.len() - from,
{
    if from < keys.len() {
        law_undefined_variables_are_refused(
            c,
            keys,
            process,
            ignore_case,
            dotenv,
            files,
            from + 1,
        );
        if let Some(t) = config::find_task(c.tasks, keys[from]) {
            let env = merged(process, ignore_case, dotenv, c.env, files[from], t.env);
            if let Some(run) = t.run {
                if let Ok(p) = shell::plan(run) {
                    let vars = shell::plan_vars(p);
                    if shell::first_undefined(vars, env) is None {
                        assert forall|v: int| 0 <= v < vars.len() implies env.contains_key(
                            (#[trigger] vars[v]).name,
                        ) by {
                            lemma_all_defined(vars, env, v);
                        }
                    }
                    if forall|v: int|
                        0 <= v < vars.len() ==> env.contains_key((#[trigger] vars[v]).name) {
                        lemma_none_undefined(vars, env);
                    }
                }
            }
        }
    }
}

/// A program is looked for under other extensions only if it is a bare name: without a
/// slash, a backslash or a dot.
pub proof fn law_bare_programs(program: Seq<char>, i: int)
    ensures
        0 <= i < program.len() && (program[i] == '/' || program[i] == '\\' || program[i] == '.')
            ==> !is_bare(program),
        (forall|k: int|
            0 <= k < program.len() ==> (#[trigger] program[k]) != '/' && program[k] != '\\'
                && program[k] != '.') ==> is_bare(program),
{
    if 0 <= i < program.len() {
        assert(program.contains(program[i]));
    }
}

/// The names in use after a merge are those of the process, and behind them the new ones
/// of each source, the weakest source first.
pub proof fn law_names_of_a_merge(
    process: Seq<Seq<char>>,
    ignore_case: bool,
    dotenv: Seq<(Seq<char>, Seq<char>)>,
    workspace: Seq<(Seq<char>, Seq<char>)>,
    files: Seq<(Seq<char>, Seq<char>)>,
    task: Seq<(Seq<char>, Seq<char>)>,
)
    ensures
        merged_names(process, ignore_case, dotenv, workspace, files, task) == applied_names(
            applied_names(
                applied_names(
                    applied_names(process, ignore_case, dotenv, dotenv.len() as int),
                    ignore_case,
                    workspace,
                    workspace.len() as int,
                ),
                ignore_case,
                files,
                files.len() as int,
            ),
            ignore_case,
            task,
            task.len() as int,
        ),
{
}

} // verus!
