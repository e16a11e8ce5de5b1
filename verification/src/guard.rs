//! Guarded environment variables: what a config may not set.
//!
//! Some variables only decide what code other programs load. A config, a `.env`
//! or an `env_file` that sets one is refused, unless the command line allows it;
//! nothing in the config can. The process environment is passed on untouched.

use vstd::prelude::*;

use crate::config;
use crate::config::{Config, ConfigView};
use crate::env;
use crate::error::{ErrorView, TsrError};
use crate::text;

verus! {

/// Whether a variable decides what code some other program loads, or belongs to
/// `tsr` itself.
pub open spec fn is_guarded(name: Seq<char>) -> bool {
    ||| name == "LD_PRELOAD"@
    ||| name == "LD_AUDIT"@
    ||| name == "DYLD_INSERT_LIBRARIES"@
    ||| name == "DYLD_LIBRARY_PATH"@
    ||| name == "NODE_OPTIONS"@
    ||| name == "BASH_ENV"@
    ||| name == "PYTHONSTARTUP"@
    ||| name == "PERL5OPT"@
    ||| name == "RUBYOPT"@
    ||| name == "PHP_INI_SCAN_DIR"@
    ||| name == "JAVA_TOOL_OPTIONS"@
    ||| name == "JDK_JAVA_OPTIONS"@
    ||| name == "_JAVA_OPTIONS"@
    ||| name == "PYTHONPATH"@
    ||| name == "PERL5LIB"@
    ||| name == "RUBYLIB"@
    ||| name == "GOFLAGS"@
    ||| name == "RUSTC_WRAPPER"@
    ||| name == "RUSTC_WORKSPACE_WRAPPER"@
    ||| name == "GIT_SSH"@
    ||| name == "GIT_SSH_COMMAND"@
    ||| name == "GIT_EXTERNAL_DIFF"@
    ||| name == "GIT_PROXY_COMMAND"@
    ||| name == "SSH_ASKPASS"@
    ||| name == "SUDO_ASKPASS"@
    ||| text::has_prefix(name, "TSR_"@)
}

/// Whether a value references a variable, from `i` on.
pub open spec fn mentions_from(s: Seq<char>, i: int, name: Seq<char>, ignore_case: bool) -> bool
    decreases s.len() - i,
{
    if i < 0 || i >= s.len() {
        false
    } else {
        proof {
            env::lemma_reference_advances(s, i + 1);
        }
        match env::reference(s, i + 1) {
            Some((found, next)) => if s[i] == '$' {
                env::folded(found, ignore_case) == name || mentions_from(s, next, name, ignore_case)
            } else {
                mentions_from(s, i + 1, name, ignore_case)
            },
            None => mentions_from(s, i + 1, name, ignore_case),
        }
    }
}

/// Whether a `PATH` value has an entry that stands for the working directory
/// without saying so: an empty one, or a bare `.`.
pub open spec fn has_hidden_entry(value: Seq<char>, sep: char) -> bool {
    let entries = text::split(value, sep);
    exists|i: int|
        0 <= i < entries.len() && ((#[trigger] entries[i]).len() == 0 || entries[i] == seq!['.'])
}

/// What is wrong with a pair that a config sets. `source` says where it is set.
pub open spec fn pair_error(
    source: Seq<char>,
    key: Seq<char>,
    value: Seq<char>,
    sep: char,
    ignore_case: bool,
) -> Option<ErrorView> {
    let name = env::folded(key, ignore_case);
    if is_guarded(name) {
        Some(
            ErrorView::Config(
                source + " may not set '"@ + key
                    + "': it decides what code other programs load — pass --allow-unsafe-env if that is intended"@,
            ),
        )
    } else if name == "PATH"@ && !mentions_from(value, 0, "PATH"@, ignore_case) {
        Some(
            ErrorView::Config(
                source
                    + " replaces PATH: the value must reference $PATH — pass --allow-unsafe-env if that is intended"@,
            ),
        )
    } else if name == "PATH"@ && has_hidden_entry(value, sep) {
        Some(
            ErrorView::Config(
                source
                    + " sets a PATH with an empty or '.' entry, which is the working directory — pass --allow-unsafe-env if that is intended"@,
            ),
        )
    } else {
        None
    }
}

/// What is wrong with the first of the pairs, from `from` on, that has something
/// wrong.
pub open spec fn pairs_error(
    source: Seq<char>,
    pairs: Seq<(Seq<char>, Seq<char>)>,
    from: int,
    sep: char,
    ignore_case: bool,
) -> Option<ErrorView>
    decreases pairs.len() - from,
{
    if from >= pairs.len() {
        None
    } else {
        match pair_error(source, pairs[from].0, pairs[from].1, sep, ignore_case) {
            Some(e) => Some(e),
            None => pairs_error(source, pairs, from + 1, sep, ignore_case),
        }
    }
}

/// What is wrong with the `env` and `env_file`s of the first of the tasks, from
/// `from` on, that has something wrong.
pub open spec fn tasks_error(
    c: ConfigView,
    keys: Seq<Seq<char>>,
    files: Seq<Seq<(Seq<char>, Seq<char>)>>,
    from: int,
    sep: char,
    ignore_case: bool,
) -> Option<ErrorView>
    decreases keys.len() - from,
{
    if from >= keys.len() {
        None
    } else {
        match config::find_task(c.tasks, keys[from]) {
            None => tasks_error(c, keys, files, from + 1, sep, ignore_case),
            Some(t) => match pairs_error(
                "task '"@ + t.key + "': env"@,
                t.env,
                0,
                sep,
                ignore_case,
            ) {
                Some(e) => Some(e),
                None => match pairs_error(
                    "task '"@ + t.key + "': env_file"@,
                    files[from],
                    0,
                    sep,
                    ignore_case,
                ) {
                    Some(e) => Some(e),
                    None => tasks_error(c, keys, files, from + 1, sep, ignore_case),
                },
            },
        }
    }
}

/// What is wrong with the variables that the config sets for these tasks.
pub open spec fn guard_error(
    c: ConfigView,
    keys: Seq<Seq<char>>,
    dotenv: Seq<(Seq<char>, Seq<char>)>,
    files: Seq<Seq<(Seq<char>, Seq<char>)>>,
    sep: char,
    ignore_case: bool,
) -> Option<ErrorView> {
    match pairs_error(".env"@, dotenv, 0, sep, ignore_case) {
        Some(e) => Some(e),
        None => match pairs_error("[env]"@, c.env, 0, sep, ignore_case) {
            Some(e) => Some(e),
            None => tasks_error(c, keys, files, 0, sep, ignore_case),
        },
    }
}

/// Whether a name, as the platform compares it, is guarded.
fn guarded(name: &str) -> (r: bool)
    ensures
        r == is_guarded(name@),
{
    text::same(name, "LD_PRELOAD") || text::same(name, "LD_AUDIT") || text::same(
        name,
        "DYLD_INSERT_LIBRARIES",
    ) || text::same(name, "DYLD_LIBRARY_PATH") || text::same(name, "NODE_OPTIONS") || text::same(
        name,
        "BASH_ENV",
    ) || text::same(name, "PYTHONSTARTUP") || text::same(name, "PERL5OPT") || text::same(
        name,
        "RUBYOPT",
    ) || text::same(name, "PHP_INI_SCAN_DIR") || text::same(name, "JAVA_TOOL_OPTIONS")
        || text::same(name, "JDK_JAVA_OPTIONS") || text::same(name, "_JAVA_OPTIONS") || text::same(
        name,
        "PYTHONPATH",
    ) || text::same(name, "PERL5LIB") || text::same(name, "RUBYLIB") || text::same(name, "GOFLAGS")
        || text::same(name, "RUSTC_WRAPPER") || text::same(name, "RUSTC_WORKSPACE_WRAPPER")
        || text::same(name, "GIT_SSH") || text::same(name, "GIT_SSH_COMMAND") || text::same(
        name,
        "GIT_EXTERNAL_DIFF",
    ) || text::same(name, "GIT_PROXY_COMMAND") || text::same(name, "SSH_ASKPASS") || text::same(
        name,
        "SUDO_ASKPASS",
    ) || text::starts_with(&text::chars(name), "TSR_")
}

/// Whether a value references a variable.
fn mentions(value: &str, name: &str, ignore_case: bool) -> (r: bool)
    ensures
        r == mentions_from(value@, 0, name@, ignore_case),
{
    let cs = text::chars(value);
    let mut i: usize = 0;
    while i < cs.len()
        invariant
            i <= cs.len(),
            cs@ == value@,
            mentions_from(value@, 0, name@, ignore_case) == mentions_from(
                value@,
                i as int,
                name@,
                ignore_case,
            ),
        decreases cs.len() - i,
    {
        let here = env::read_var(&cs, i + 1);
        if cs[i] == '$' && here.is_some() {
            let (found, next) = here.unwrap();
            if text::same(env::fold_name(found.as_str(), ignore_case).as_str(), name) {
                return true;
            }
            i = next;
        } else {
            i += 1;
        }
    }
    false
}

/// Whether a `PATH` value has an empty or a bare `.` entry.
fn hidden_entry(value: &str, sep: char) -> (r: bool)
    ensures
        r == has_hidden_entry(value@, sep),
{
    let entries = text::split_at_char(&text::chars(value), sep);
    let ghost all = text::texts(entries@);
    let mut i: usize = 0;
    while i < entries.len()
        invariant
            i <= entries.len(),
            all == text::texts(entries@),
            all == text::split(value@, sep),
            forall|j: int|
                0 <= j < i ==> (#[trigger] all[j]).len() != 0 && all[j] != seq!['.'],
        decreases entries.len() - i,
    {
        let entry = text::chars(entries[i].as_str());
        assert(all[i as int] == entry@);
        let dot = entry.len() == 1 && entry[0] == '.';
        assert(dot == (entry@ =~= seq!['.']));
        if entry.len() == 0 || dot {
            return true;
        }
        i += 1;
    }
    false
}

/// Check the pairs that one source sets.
pub fn check_pairs(
    source: &str,
    pairs: &Vec<(String, String)>,
    sep: char,
    ignore_case: bool,
) -> (r: Result<(), TsrError>)
    ensures
        match r {
            Ok(_) => pairs_error(source@, config::pair_views(pairs@), 0, sep, ignore_case) is None,
            Err(e) => pairs_error(source@, config::pair_views(pairs@), 0, sep, ignore_case)
                == Some(e@),
        },
{
    let ghost p = config::pair_views(pairs@);
    let mut i: usize = 0;
    while i < pairs.len()
        invariant
            i <= pairs.len(),
            p == config::pair_views(pairs@),
            pairs_error(source@, p, 0, sep, ignore_case) == pairs_error(
                source@,
                p,
                i as int,
                sep,
                ignore_case,
            ),
        decreases pairs.len() - i,
    {
        let key = pairs[i].0.as_str();
        let value = pairs[i].1.as_str();
        assert(p[i as int] == (key@, value@));
        let name = env::fold_name(key, ignore_case);
        if guarded(name.as_str()) {
            let mut m = source.to_string();
            m.append(" may not set '");
            m.append(key);
            m.append(
                "': it decides what code other programs load — pass --allow-unsafe-env if that is intended",
            );
            return Err(TsrError::Config(m));
        }
        if text::same(name.as_str(), "PATH") {
            if !mentions(value, "PATH", ignore_case) {
                return Err(
                    TsrError::Config(
                        text::join2(
                            source,
                            " replaces PATH: the value must reference $PATH — pass --allow-unsafe-env if that is intended",
                        ),
                    ),
                );
            }
            if hidden_entry(value, sep) {
                return Err(
                    TsrError::Config(
                        text::join2(
                            source,
                            " sets a PATH with an empty or '.' entry, which is the working directory — pass --allow-unsafe-env if that is intended",
                        ),
                    ),
                );
            }
        }
        i += 1;
    }
    Ok(())
}

/// Check every variable that the config sets for the tasks that will run, unless
/// the command line allows all of them. `files[i]` are the pairs of the
/// `env_file`s of the task `keys[i]`; `sep` separates the entries of `PATH`, and
/// `ignore_case` says whether the platform ignores the case of names.
pub fn check(
    cfg: &Config,
    keys: &Vec<String>,
    dotenv: &Vec<(String, String)>,
    files: &Vec<Vec<(String, String)>>,
    sep: char,
    ignore_case: bool,
    allow: bool,
) -> (r: Result<(), TsrError>)
    requires
        files.len() == keys.len(),
    ensures
        ({
            let found = guard_error(
                cfg@,
                text::texts(keys@),
                config::pair_views(dotenv@),
                env::file_views(files@),
                sep,
                ignore_case,
            );
            match r {
                Ok(_) => allow || found is None,
                Err(e) => !allow && found == Some(e@),
            }
        }),
{
    if allow {
        return Ok(());
    }
    match check_pairs(".env", dotenv, sep, ignore_case) {
        Ok(_) => {},
        Err(e) => return Err(e),
    }
    match check_pairs("[env]", &cfg.env, sep, ignore_case) {
        Ok(_) => {},
        Err(e) => return Err(e),
    }
    let ghost ks = text::texts(keys@);
    let ghost fs = env::file_views(files@);
    let mut i: usize = 0;
    while i < keys.len()
        invariant
            i <= keys.len(),
            !allow,
            files.len() == keys.len(),
            ks == text::texts(keys@),
            fs == env::file_views(files@),
            pairs_error(".env"@, config::pair_views(dotenv@), 0, sep, ignore_case) is None,
            pairs_error("[env]"@, cfg@.env, 0, sep, ignore_case) is None,
            tasks_error(cfg@, ks, fs, 0, sep, ignore_case) == tasks_error(
                cfg@,
                ks,
                fs,
                i as int,
                sep,
                ignore_case,
            ),
        decreases keys.len() - i,
    {
        assert(ks[i as int] == keys@[i as int]@);
        assert(fs[i as int] == config::pair_views(files@[i as int]@));
        if let Some(task) = cfg.task(keys[i].as_str()) {
            let source = text::join3("task '", task.key.as_str(), "': env");
            match check_pairs(source.as_str(), &task.env, sep, ignore_case) {
                Ok(_) => {},
                Err(e) => return Err(e),
            }
            let source = text::join3("task '", task.key.as_str(), "': env_file");
            match check_pairs(source.as_str(), &files[i], sep, ignore_case) {
                Ok(_) => {},
                Err(e) => return Err(e),
            }
        }
        i += 1;
    }
    Ok(())
}

/// Pairs that pass set no guarded variable, and every `PATH` among them extends
/// `$PATH` and has no hidden entry.
pub proof fn law_passed_pairs_are_safe(
    source: Seq<char>,
    pairs: Seq<(Seq<char>, Seq<char>)>,
    from: int,
    sep: char,
    ignore_case: bool,
)
    requires
        0 <= from,
        pairs_error(source, pairs, from, sep, ignore_case) is None,
    ensures
        forall|i: int|
            from <= i < pairs.len() ==> {
                let name = env::folded((#[trigger] pairs[i]).0, ignore_case);
                &&& !is_guarded(name)
                &&& name == "PATH"@ ==> mentions_from(pairs[i].1, 0, "PATH"@, ignore_case)
                    && !has_hidden_entry(pairs[i].1, sep)
            },
    decreases pairs.len() - from,
{
    if from < pairs.len() {
        law_passed_pairs_are_safe(source, pairs, from + 1, sep, ignore_case);
        assert forall|i: int| from <= i < pairs.len() implies {
            let name = env::folded((#[trigger] pairs[i]).0, ignore_case);
            &&& !is_guarded(name)
            &&& name == "PATH"@ ==> mentions_from(pairs[i].1, 0, "PATH"@, ignore_case)
                && !has_hidden_entry(pairs[i].1, sep)
        } by {
            if i == from {
                assert(pair_error(source, pairs[from].0, pairs[from].1, sep, ignore_case) is None);
            }
        }
    }
}

/// The names that no file may set: those that make another program load code, and every
/// name that begins with `TSR_`.
pub proof fn law_guarded_names(name: Seq<char>)
    ensures
        ({
            let listed = seq![
                "LD_PRELOAD"@, "LD_AUDIT"@, "DYLD_INSERT_LIBRARIES"@, "DYLD_LIBRARY_PATH"@,
                "NODE_OPTIONS"@, "BASH_ENV"@, "PYTHONSTARTUP"@, "PERL5OPT"@, "RUBYOPT"@,
                "PHP_INI_SCAN_DIR"@, "JAVA_TOOL_OPTIONS"@, "JDK_JAVA_OPTIONS"@,
                "_JAVA_OPTIONS"@, "PYTHONPATH"@, "PERL5LIB"@, "RUBYLIB"@, "GOFLAGS"@,
                "RUSTC_WRAPPER"@, "RUSTC_WORKSPACE_WRAPPER"@, "GIT_SSH"@, "GIT_SSH_COMMAND"@,
                "GIT_EXTERNAL_DIFF"@, "GIT_PROXY_COMMAND"@, "SSH_ASKPASS"@, "SUDO_ASKPASS"@,
            ];
            is_guarded(name) <==> listed.contains(name) || (name.len() >= 4 && name[0] == 'T'
                && name[1] == 'S' && name[2] == 'R' && name[3] == '_')
        }),
{
    let listed = seq![
        "LD_PRELOAD"@, "LD_AUDIT"@, "DYLD_INSERT_LIBRARIES"@, "DYLD_LIBRARY_PATH"@,
        "NODE_OPTIONS"@, "BASH_ENV"@, "PYTHONSTARTUP"@, "PERL5OPT"@, "RUBYOPT"@,
        "PHP_INI_SCAN_DIR"@, "JAVA_TOOL_OPTIONS"@, "JDK_JAVA_OPTIONS"@,
        "_JAVA_OPTIONS"@, "PYTHONPATH"@, "PERL5LIB"@, "RUBYLIB"@, "GOFLAGS"@,
        "RUSTC_WRAPPER"@, "RUSTC_WORKSPACE_WRAPPER"@, "GIT_SSH"@, "GIT_SSH_COMMAND"@,
        "GIT_EXTERNAL_DIFF"@, "GIT_PROXY_COMMAND"@, "SSH_ASKPASS"@, "SUDO_ASKPASS"@,
    ];
    reveal_strlit("TSR_");
    if name.len() >= 4 {
        assert(name.take(4) =~= "TSR_"@ <==> (name[0] == 'T' && name[1] == 'S' && name[2] == 'R'
            && name[3] == '_')) by {
            let front = name.take(4);
            assert(front[0] == name[0] && front[1] == name[1] && front[2] == name[2] && front[3]
                == name[3]);
        }
    }
    assert(listed[0] == "LD_PRELOAD"@ && listed[1] == "LD_AUDIT"@ && listed[2]
        == "DYLD_INSERT_LIBRARIES"@ && listed[3] == "DYLD_LIBRARY_PATH"@ && listed[4]
        == "NODE_OPTIONS"@ && listed[5] == "BASH_ENV"@ && listed[6] == "PYTHONSTARTUP"@
        && listed[7] == "PERL5OPT"@ && listed[8] == "RUBYOPT"@ && listed[9]
        == "PHP_INI_SCAN_DIR"@ && listed[10] == "JAVA_TOOL_OPTIONS"@ && listed[11]
        == "JDK_JAVA_OPTIONS"@ && listed[12] == "_JAVA_OPTIONS"@ && listed[13] == "PYTHONPATH"@
        && listed[14] == "PERL5LIB"@ && listed[15] == "RUBYLIB"@ && listed[16] == "GOFLAGS"@
        && listed[17] == "RUSTC_WRAPPER"@ && listed[18] == "RUSTC_WORKSPACE_WRAPPER"@
        && listed[19] == "GIT_SSH"@ && listed[20] == "GIT_SSH_COMMAND"@ && listed[21]
        == "GIT_EXTERNAL_DIFF"@ && listed[22] == "GIT_PROXY_COMMAND"@ && listed[23]
        == "SSH_ASKPASS"@ && listed[24] == "SUDO_ASKPASS"@);
    assert(listed.len() == 25);
}

/// Where the case of a name does not count, it is compared in capitals; elsewhere as it
/// is.
pub proof fn law_folded_names(name: Seq<char>, i: int)
    requires
        0 <= i < name.len(),
    ensures
        env::folded(name, false) == name,
        env::folded(name, true).len() == name.len(),
        'a' <= name[i] && name[i] <= 'z' ==> env::folded(name, true)[i] as int == name[i] as int
            - 32,
        !('a' <= name[i] && name[i] <= 'z') ==> env::folded(name, true)[i] == name[i],
{
}

/// A pair is refused exactly if it sets a guarded name, or a `PATH` that leaves out the
/// one there is or has an entry that stands for the working directory. The error names
/// the place and the name.
pub proof fn law_refused_pairs(
    source: Seq<char>,
    key: Seq<char>,
    value: Seq<char>,
    sep: char,
    ignore_case: bool,
)
    ensures
        ({
            let name = env::folded(key, ignore_case);
            &&& pair_error(source, key, value, sep, ignore_case) is Some <==> is_guarded(name) || (
            name == "PATH"@ && (!mentions_from(value, 0, "PATH"@, ignore_case) || has_hidden_entry(
                value,
                sep,
            )))
            &&& is_guarded(name) ==> pair_error(source, key, value, sep, ignore_case) == Some(
                ErrorView::Config(
                    source + " may not set '"@ + key
                        + "': it decides what code other programs load — pass --allow-unsafe-env if that is intended"@,
                ),
            )
        }),
{
}

proof fn lemma_mentions_from(s: Seq<char>, i: int, j: int, name: Seq<char>, ignore_case: bool)
    requires
        0 <= i <= j <= s.len(),
        forall|k: int| i <= k < j ==> #[trigger] s[k] != '$',
    ensures
        mentions_from(s, i, name, ignore_case) == mentions_from(s, j, name, ignore_case),
    decreases j - i,
{
    if i < j {
        lemma_mentions_from(s, i + 1, j, name, ignore_case);
    }
}

/// A value that has `$PATH` or `${PATH}` in it, with no other reference in front, extends
/// the `PATH` there is; one without a `$` does not.
pub proof fn law_path_is_extended(front: Seq<char>, back: Seq<char>)
    requires
        !front.contains('$'),
    ensures
        back.len() == 0 || !text::is_name_char(back[0]) ==> mentions_from(
            front + seq!['$', 'P', 'A', 'T', 'H'] + back,
            0,
            "PATH"@,
            false,
        ),
        mentions_from(front + seq!['$', '{', 'P', 'A', 'T', 'H', '}'] + back, 0, "PATH"@, false),
        !mentions_from(front, 0, "PATH"@, false),
        !mentions_from(front, 0, "PATH"@, true),
{
    reveal_strlit("PATH");
    let n = front.len() as int;
    let s = front + seq!['$', 'P', 'A', 'T', 'H'] + back;
    let t = front + seq!['$', '{', 'P', 'A', 'T', 'H', '}'] + back;
    assert forall|k: int| 0 <= k < n implies #[trigger] front[k] != '$' by {
        assert(front.contains(front[k]));
    }
    assert forall|k: int| 0 <= k < n implies #[trigger] s[k] != '$' by {
        assert(s[k] == front[k]);
    }
    assert forall|k: int| 0 <= k < n implies #[trigger] t[k] != '$' by {
        assert(t[k] == front[k]);
    }
    lemma_mentions_from(s, 0, n, "PATH"@, false);
    lemma_mentions_from(t, 0, n, "PATH"@, false);
    lemma_mentions_from(front, 0, n, "PATH"@, false);
    lemma_mentions_from(front, 0, n, "PATH"@, true);
    if back.len() == 0 || !text::is_name_char(back[0]) {
        assert(s[n] == '$' && s[n + 1] == 'P' && s[n + 2] == 'A' && s[n + 3] == 'T' && s[n + 4]
            == 'H');
        if back.len() > 0 {
            assert(s[n + 5] == back[0]);
        }
        reveal_with_fuel(crate::shell::name_end, 6);
        assert(crate::shell::name_end(s, n + 1) == n + 5);
        assert(s.subrange(n + 1, n + 5) =~= "PATH"@);
        assert(env::reference(s, n + 1) == Some(("PATH"@, n + 5)));
    }
    assert(t[n] == '$' && t[n + 1] == '{' && t[n + 2] == 'P' && t[n + 3] == 'A' && t[n + 4] == 'T'
        && t[n + 5] == 'H' && t[n + 6] == '}');
    text::lemma_index_from(t, '}', n + 2);
    let close = text::index_from(t, '}', n + 2);
    assert(close == n + 6);
    assert(t.subrange(n + 2, n + 6) =~= "PATH"@);
}

/// A `PATH` stands for the working directory exactly if one of its entries is empty or
/// `.`.
pub proof fn law_hidden_entries(entries: Seq<Seq<char>>, sep: char)
    requires
        entries.len() > 0,
        forall|i: int| 0 <= i < entries.len() ==> !(#[trigger] entries[i]).contains(sep),
    ensures
        has_hidden_entry(text::joined(entries, seq![sep]), sep) <==> entries.contains(Seq::empty())
            || entries.contains(seq!['.']),
{
    text::law_splitting(Seq::empty(), entries, sep);
    if has_hidden_entry(text::joined(entries, seq![sep]), sep) {
        let i = choose|i: int|
            0 <= i < entries.len() && ((#[trigger] entries[i]).len() == 0 || entries[i]
                == seq!['.']);
        if entries[i].len() == 0 {
            assert(entries[i] =~= Seq::empty());
        }
    }
    if entries.contains(Seq::empty()) {
        let i = choose|i: int| 0 <= i < entries.len() && entries[i] == Seq::<char>::empty();
        assert(entries[i].len() == 0);
    }
    if entries.contains(seq!['.']) {
        let i = choose|i: int| 0 <= i < entries.len() && entries[i] == seq!['.'];
        assert(entries[i] == seq!['.']);
    }
}

proof fn lemma_pairs_error(
    source: Seq<char>,
    pairs: Seq<(Seq<char>, Seq<char>)>,
    from: int,
    sep: char,
    ignore_case: bool,
)
    requires
        0 <= from <= pairs.len(),
    ensures
        pairs_error(source, pairs, from, sep, ignore_case) is None <==> forall|i: int|
            from <= i < pairs.len() ==> pair_error(
                source,
                (#[trigger] pairs[i]).0,
                pairs[i].1,
                sep,
                ignore_case,
            ) is None,
    decreases pairs.len() - from,
{
    if from < pairs.len() {
        lemma_pairs_error(source, pairs, from + 1, sep, ignore_case);
    }
}

/// Whether each of the pairs is accepted.
pub open spec fn all_pass(
    pairs: Seq<(Seq<char>, Seq<char>)>,
    sep: char,
    ignore_case: bool,
) -> bool {
    forall|i: int|
        0 <= i < pairs.len() ==> pair_error(
            Seq::empty(),
            (#[trigger] pairs[i]).0,
            pairs[i].1,
            sep,
            ignore_case,
        ) is None
}

proof fn lemma_all_pass(
    source: Seq<char>,
    pairs: Seq<(Seq<char>, Seq<char>)>,
    sep: char,
    ignore_case: bool,
)
    ensures
        pairs_error(source, pairs, 0, sep, ignore_case) is None <==> all_pass(
            pairs,
            sep,
            ignore_case,
        ),
{
    lemma_pairs_error(source, pairs, 0, sep, ignore_case);
    assert forall|i: int| 0 <= i < pairs.len() implies (pair_error(
        source,
        (#[trigger] pairs[i]).0,
        pairs[i].1,
        sep,
        ignore_case,
    ) is None <==> pair_error(Seq::empty(), pairs[i].0, pairs[i].1, sep, ignore_case) is None) by {
        law_refused_pairs(source, pairs[i].0, pairs[i].1, sep, ignore_case);
        law_refused_pairs(Seq::empty(), pairs[i].0, pairs[i].1, sep, ignore_case);
    }
}

proof fn lemma_tasks_error(
    c: ConfigView,
    keys: Seq<Seq<char>>,
    files: Seq<Seq<(Seq<char>, Seq<char>)>>,
    from: int,
    sep: char,
    ignore_case: bool,
)
    requires
        0 <= from <= keys.len(),
        files.len() == keys.len(),
    ensures
        tasks_error(c, keys, files, from, sep, ignore_case) is None <==> forall|i: int|
            from <= i < keys.len() && config::find_task(c.tasks, #[trigger] keys[i]) is Some
                ==> all_pass(config::find_task(c.tasks, keys[i])->0.env, sep, ignore_case)
                && all_pass(files[i], sep, ignore_case),
    decreases keys.len() - from,
{
    if from < keys.len() {
        lemma_tasks_error(c, keys, files, from + 1, sep, ignore_case);
        if let Some(t) = config::find_task(c.tasks, keys[from]) {
            lemma_all_pass("task '"@ + t.key + "': env"@, t.env, sep, ignore_case);
            lemma_all_pass("task '"@ + t.key + "': env_file"@, files[from], sep, ignore_case);
        }
    }
}

/// A run is let through exactly if every pair passes, wherever it comes from: `.env`,
/// `[env]`, and the `env` and the `env_file`s of each task of the run.
pub proof fn law_every_source_is_guarded(
    c: ConfigView,
    keys: Seq<Seq<char>>,
    dotenv: Seq<(Seq<char>, Seq<char>)>,
    files: Seq<Seq<(Seq<char>, Seq<char>)>>,
    sep: char,
    ignore_case: bool,
)
    requires
        files.len() == keys.len(),
    ensures
        guard_error(c, keys, dotenv, files, sep, ignore_case) is None <==> {
            &&& all_pass(dotenv, sep, ignore_case)
            &&& all_pass(c.env, sep, ignore_case)
            &&& forall|i: int|
                0 <= i < keys.len() && config::find_task(c.tasks, #[trigger] keys[i]) is Some
                    ==> all_pass(config::find_task(c.tasks, keys[i])->0.env, sep, ignore_case)
                    && all_pass(files[i], sep, ignore_case)
        },
{
    lemma_all_pass(".env"@, dotenv, sep, ignore_case);
    lemma_all_pass("[env]"@, c.env, sep, ignore_case);
    lemma_tasks_error(c, keys, files, 0, sep, ignore_case);
}

} // verus!
