//! The form that a task is edited with: its fields, and how they are read from
//! and written to a task's table.

use vstd::prelude::*;

use crate::config;
use crate::error;
use crate::text;
use crate::toml;
use crate::toml::{Entries, Toml, TomlView};

verus! {

/// A field of the form, in the order of the form.
#[derive(Debug, Clone, Copy, PartialEq, Eq, Structural)]
pub enum Field {
    Name,
    Kind,
    Run,
    Bin,
    BinArgs,
    Location,
    Dir,
    Packages,
    Deps,
    Args,
    Parallel,
    Env,
    EnvFile,
}

/// How many fields there are.
pub const FIELDS: usize = 13;

/// A form.
#[derive(Debug)]
pub struct FormState {
    /// The key of the task that is edited; none when one is added.
    pub original: Option<String>,
    pub name: String,
    /// `run`, `delegate`, `delegate(table)` or `auto-detect`.
    pub kind: usize,
    pub run: String,
    pub bin: String,
    pub bin_args: String,
    /// `root`, `dir` or `packages`.
    pub location: usize,
    pub dir: String,
    pub packages: String,
    pub deps: String,
    pub args: String,
    pub parallel: bool,
    pub env: String,
    pub env_file: String,
    pub focus: Field,
    pub error: Option<String>,
}

/// A form.
pub struct FormView {
    pub original: Option<Seq<char>>,
    pub name: Seq<char>,
    pub kind: int,
    pub run: Seq<char>,
    pub bin: Seq<char>,
    pub bin_args: Seq<char>,
    pub location: int,
    pub dir: Seq<char>,
    pub packages: Seq<char>,
    pub deps: Seq<char>,
    pub args: Seq<char>,
    pub parallel: bool,
    pub env: Seq<char>,
    pub env_file: Seq<char>,
    pub focus: Field,
    pub error: Option<Seq<char>>,
}

impl View for FormState {
    type V = FormView;

    open spec fn view(&self) -> FormView {
        FormView {
            original: config::opt_text(self.original),
            name: self.name@,
            kind: self.kind as int,
            run: self.run@,
            bin: self.bin@,
            bin_args: self.bin_args@,
            location: self.location as int,
            dir: self.dir@,
            packages: self.packages@,
            deps: self.deps@,
            args: self.args@,
            parallel: self.parallel,
            env: self.env@,
            env_file: self.env_file@,
            focus: self.focus,
            error: config::opt_text(self.error),
        }
    }
}

// ---------------------------------------------------------------------------
// Fields
// ---------------------------------------------------------------------------
/// The position of a field.
pub open spec fn index_of(f: Field) -> int {
    match f {
        Field::Name => 0,
        Field::Kind => 1,
        Field::Run => 2,
        Field::Bin => 3,
        Field::BinArgs => 4,
        Field::Location => 5,
        Field::Dir => 6,
        Field::Packages => 7,
        Field::Deps => 8,
        Field::Args => 9,
        Field::Parallel => 10,
        Field::Env => 11,
        Field::EnvFile => 12,
    }
}

/// The field at a position.
pub open spec fn field_at(i: int) -> Field {
    if i == 0 {
        Field::Name
    } else if i == 1 {
        Field::Kind
    } else if i == 2 {
        Field::Run
    } else if i == 3 {
        Field::Bin
    } else if i == 4 {
        Field::BinArgs
    } else if i == 5 {
        Field::Location
    } else if i == 6 {
        Field::Dir
    } else if i == 7 {
        Field::Packages
    } else if i == 8 {
        Field::Deps
    } else if i == 9 {
        Field::Args
    } else if i == 10 {
        Field::Parallel
    } else if i == 11 {
        Field::Env
    } else {
        Field::EnvFile
    }
}

/// What a field is called.
pub open spec fn label_of(f: Field) -> Seq<char> {
    match f {
        Field::Name => "name"@,
        Field::Kind => "type"@,
        Field::Run => "run"@,
        Field::Bin => "delegate bin"@,
        Field::BinArgs => "delegate args"@,
        Field::Location => "location"@,
        Field::Dir => "dir"@,
        Field::Packages => "packages"@,
        Field::Deps => "deps"@,
        Field::Args => "args"@,
        Field::Parallel => "parallel"@,
        Field::Env => "env"@,
        Field::EnvFile => "env file"@,
    }
}

/// What a field's format is, where that needs saying.
pub open spec fn hint_of(f: Field) -> Option<Seq<char>> {
    match f {
        Field::BinArgs => Some("space-separated"@),
        Field::Args => Some("space-separated"@),
        Field::Packages => Some("comma-separated"@),
        Field::Deps => Some("comma-separated"@),
        Field::Env => Some("KEY=VALUE, comma-separated"@),
        Field::EnvFile => Some(".env paths, comma-separated (later overrides earlier)"@),
        _ => None,
    }
}

/// How many options a choice has; 0 for a field that is none.
pub open spec fn options(f: Field) -> int {
    match f {
        Field::Kind => 4,
        Field::Location => 3,
        _ => 0,
    }
}

/// What an option of a choice is called.
pub open spec fn option_of(f: Field, i: int) -> Seq<char> {
    match f {
        Field::Kind => if i == 0 {
            "run"@
        } else if i == 1 {
            "delegate"@
        } else if i == 2 {
            "delegate(table)"@
        } else {
            "auto-detect"@
        },
        _ => if i == 0 {
            "root"@
        } else if i == 1 {
            "dir"@
        } else {
            "packages"@
        },
    }
}

/// Whether a field is a text.
pub open spec fn is_text(f: Field) -> bool {
    f != Field::Kind && f != Field::Location && f != Field::Parallel
}

/// The text in a field; empty for a field that is no text.
pub open spec fn text_of(form: FormView, f: Field) -> Seq<char> {
    match f {
        Field::Name => form.name,
        Field::Run => form.run,
        Field::Bin => form.bin,
        Field::BinArgs => form.bin_args,
        Field::Dir => form.dir,
        Field::Packages => form.packages,
        Field::Deps => form.deps,
        Field::Args => form.args,
        Field::Env => form.env,
        Field::EnvFile => form.env_file,
        _ => Seq::empty(),
    }
}

/// The option that is chosen; 0 for a field that is no choice.
pub open spec fn choice_of(form: FormView, f: Field) -> int {
    match f {
        Field::Kind => form.kind,
        Field::Location => form.location,
        _ => 0,
    }
}

/// The form with another text in a field; a field that is no text stays.
pub open spec fn with_text(form: FormView, f: Field, v: Seq<char>) -> FormView {
    match f {
        Field::Name => FormView { name: v, ..form },
        Field::Run => FormView { run: v, ..form },
        Field::Bin => FormView { bin: v, ..form },
        Field::BinArgs => FormView { bin_args: v, ..form },
        Field::Dir => FormView { dir: v, ..form },
        Field::Packages => FormView { packages: v, ..form },
        Field::Deps => FormView { deps: v, ..form },
        Field::Args => FormView { args: v, ..form },
        Field::Env => FormView { env: v, ..form },
        Field::EnvFile => FormView { env_file: v, ..form },
        _ => form,
    }
}

/// The form with another option chosen; a field that is no choice stays.
pub open spec fn with_choice(form: FormView, f: Field, v: int) -> FormView {
    match f {
        Field::Kind => FormView { kind: v, ..form },
        Field::Location => FormView { location: v, ..form },
        _ => form,
    }
}

/// Whether a field applies, given what is chosen.
pub open spec fn applies(form: FormView, f: Field) -> bool {
    match f {
        Field::Run => form.kind == 0,
        Field::Bin => form.kind == 1 || form.kind == 2,
        Field::BinArgs => form.kind == 2,
        Field::Dir => form.location == 1,
        Field::Packages => form.location == 2,
        _ => true,
    }
}

/// The field that comes behind another; the first one behind the last.
pub open spec fn field_after(f: Field) -> Field {
    if f == Field::EnvFile {
        Field::Name
    } else {
        field_at(index_of(f) + 1)
    }
}

/// The field that comes before another; the last one before the first.
pub open spec fn field_before(f: Field) -> Field {
    if f == Field::Name {
        Field::EnvFile
    } else {
        field_at(index_of(f) - 1)
    }
}

/// The first field behind another that applies, within `steps` steps.
pub open spec fn next_field(form: FormView, f: Field, steps: nat) -> Field
    decreases steps,
{
    if steps == 0 || applies(form, field_after(f)) {
        field_after(f)
    } else {
        next_field(form, field_after(f), (steps - 1) as nat)
    }
}

/// The first field before another that applies, within `steps` steps.
pub open spec fn prev_field(form: FormView, f: Field, steps: nat) -> Field
    decreases steps,
{
    if steps == 0 || applies(form, field_before(f)) {
        field_before(f)
    } else {
        prev_field(form, field_before(f), (steps - 1) as nat)
    }
}

/// The option behind another; the first one behind the last.
pub open spec fn option_after(i: int, n: int) -> int {
    if i + 1 >= n {
        0
    } else {
        i + 1
    }
}

/// The option before another; the last one before the first.
pub open spec fn option_before(i: int, n: int) -> int {
    if i <= 0 || i >= n {
        n - 1
    } else {
        i - 1
    }
}

/// The form after the field in focus was changed: a choice goes on to another
/// option, a switch is turned, a text stays.
pub open spec fn adjusted(form: FormView, forward: bool) -> FormView {
    let f = form.focus;
    if f == Field::Parallel {
        FormView { parallel: !form.parallel, ..form }
    } else if options(f) > 0 {
        with_choice(
            form,
            f,
            if forward {
                option_after(choice_of(form, f), options(f))
            } else {
                option_before(choice_of(form, f), options(f))
            },
        )
    } else {
        form
    }
}

/// A form for a task that is not there yet.
pub open spec fn blank() -> FormView {
    FormView {
        original: None,
        name: Seq::empty(),
        kind: 0,
        run: Seq::empty(),
        bin: Seq::empty(),
        bin_args: Seq::empty(),
        location: 0,
        dir: Seq::empty(),
        packages: Seq::empty(),
        deps: Seq::empty(),
        args: Seq::empty(),
        parallel: false,
        env: Seq::empty(),
        env_file: Seq::empty(),
        focus: Field::Name,
        error: None,
    }
}

impl Field {
    /// The position of the field.
    pub fn index(self) -> (r: usize)
        ensures
            r == index_of(self),
            r < FIELDS,
    {
        match self {
            Field::Name => 0,
            Field::Kind => 1,
            Field::Run => 2,
            Field::Bin => 3,
            Field::BinArgs => 4,
            Field::Location => 5,
            Field::Dir => 6,
            Field::Packages => 7,
            Field::Deps => 8,
            Field::Args => 9,
            Field::Parallel => 10,
            Field::Env => 11,
            Field::EnvFile => 12,
        }
    }

    /// The field at a position.
    pub fn at(i: usize) -> (r: Field)
        ensures
            r == field_at(i as int),
    {
        if i == 0 {
            Field::Name
        } else if i == 1 {
            Field::Kind
        } else if i == 2 {
            Field::Run
        } else if i == 3 {
            Field::Bin
        } else if i == 4 {
            Field::BinArgs
        } else if i == 5 {
            Field::Location
        } else if i == 6 {
            Field::Dir
        } else if i == 7 {
            Field::Packages
        } else if i == 8 {
            Field::Deps
        } else if i == 9 {
            Field::Args
        } else if i == 10 {
            Field::Parallel
        } else if i == 11 {
            Field::Env
        } else {
            Field::EnvFile
        }
    }

    fn after(self) -> (r: Field)
        ensures
            r == field_after(self),
    {
        if self == Field::EnvFile {
            Field::Name
        } else {
            Field::at(self.index() + 1)
        }
    }

    fn before(self) -> (r: Field)
        ensures
            r == field_before(self),
    {
        if self == Field::Name {
            Field::EnvFile
        } else {
            Field::at(self.index() - 1)
        }
    }

    /// What the field is called.
    pub fn label(self) -> (r: &'static str)
        ensures
            r@ == label_of(self),
    {
        match self {
            Field::Name => "name",
            Field::Kind => "type",
            Field::Run => "run",
            Field::Bin => "delegate bin",
            Field::BinArgs => "delegate args",
            Field::Location => "location",
            Field::Dir => "dir",
            Field::Packages => "packages",
            Field::Deps => "deps",
            Field::Args => "args",
            Field::Parallel => "parallel",
            Field::Env => "env",
            Field::EnvFile => "env file",
        }
    }

    /// What the field's format is, where that needs saying.
    pub fn hint(self) -> (r: Option<&'static str>)
        ensures
            match r {
                Some(s) => hint_of(self) == Some(s@),
                None => hint_of(self) is None,
            },
    {
        match self {
            Field::BinArgs => Some("space-separated"),
            Field::Args => Some("space-separated"),
            Field::Packages => Some("comma-separated"),
            Field::Deps => Some("comma-separated"),
            Field::Env => Some("KEY=VALUE, comma-separated"),
            Field::EnvFile => Some(".env paths, comma-separated (later overrides earlier)"),
            _ => None,
        }
    }

    /// What an option of the field is called.
    pub fn option(self, i: usize) -> (r: &'static str)
        ensures
            r@ == option_of(self, i as int),
    {
        match self {
            Field::Kind => {
                if i == 0 {
                    "run"
                } else if i == 1 {
                    "delegate"
                } else if i == 2 {
                    "delegate(table)"
                } else {
                    "auto-detect"
                }
            },
            _ => {
                if i == 0 {
                    "root"
                } else if i == 1 {
                    "dir"
                } else {
                    "packages"
                }
            },
        }
    }

    /// Whether the field is a text.
    pub fn holds_text(self) -> (r: bool)
        ensures
            r == is_text(self),
    {
        self != Field::Kind && self != Field::Location && self != Field::Parallel
    }
}

impl FormState {
    /// A form for a task that is not there yet.
    pub fn new_task() -> (form: FormState)
        ensures
            form@ == blank(),
    {
        FormState {
            original: None,
            name: String::new(),
            kind: 0,
            run: String::new(),
            bin: String::new(),
            bin_args: String::new(),
            location: 0,
            dir: String::new(),
            packages: String::new(),
            deps: String::new(),
            args: String::new(),
            parallel: false,
            env: String::new(),
            env_file: String::new(),
            focus: Field::Name,
            error: None,
        }
    }

    /// A form for a delegated task that is not there yet.
    pub fn new_delegate() -> (form: FormState)
        ensures
            form@ == with_choice(blank(), Field::Kind, 1),
    {
        let mut form = FormState::new_task();
        form.set_choice(Field::Kind, 1);
        form
    }

    /// The text in a field; empty for a field that is no text.
    pub fn text(&self, f: Field) -> (r: &str)
        ensures
            r@ == text_of(self@, f),
    {
        match f {
            Field::Name => self.name.as_str(),
            Field::Run => self.run.as_str(),
            Field::Bin => self.bin.as_str(),
            Field::BinArgs => self.bin_args.as_str(),
            Field::Dir => self.dir.as_str(),
            Field::Packages => self.packages.as_str(),
            Field::Deps => self.deps.as_str(),
            Field::Args => self.args.as_str(),
            Field::Env => self.env.as_str(),
            Field::EnvFile => self.env_file.as_str(),
            _ => {
                proof {
                    reveal_strlit("");
                    assert(""@ =~= Seq::empty());
                }
                ""
            },
        }
    }

    /// The option that is chosen; 0 for a field that is no choice.
    pub fn choice(&self, f: Field) -> (r: usize)
        ensures
            r == choice_of(self@, f),
    {
        match f {
            Field::Kind => self.kind,
            Field::Location => self.location,
            _ => 0,
        }
    }

    /// Whether a switch is on.
    pub fn toggle(&self, f: Field) -> (r: bool)
        ensures
            r == (f == Field::Parallel && self@.parallel),
    {
        f == Field::Parallel && self.parallel
    }

    /// Put a text into a field; a field that is no text stays.
    pub fn set_text(&mut self, f: Field, v: &str)
        ensures
            final(self)@ == with_text(old(self)@, f, v@),
    {
        match f {
            Field::Name => {
                self.name = v.to_string();
            },
            Field::Run => {
                self.run = v.to_string();
            },
            Field::Bin => {
                self.bin = v.to_string();
            },
            Field::BinArgs => {
                self.bin_args = v.to_string();
            },
            Field::Dir => {
                self.dir = v.to_string();
            },
            Field::Packages => {
                self.packages = v.to_string();
            },
            Field::Deps => {
                self.deps = v.to_string();
            },
            Field::Args => {
                self.args = v.to_string();
            },
            Field::Env => {
                self.env = v.to_string();
            },
            Field::EnvFile => {
                self.env_file = v.to_string();
            },
            _ => {},
        }
    }

    /// Choose an option; a field that is no choice stays.
    pub fn set_choice(&mut self, f: Field, v: usize)
        ensures
            final(self)@ == with_choice(old(self)@, f, v as int),
    {
        match f {
            Field::Kind => {
                self.kind = v;
            },
            Field::Location => {
                self.location = v;
            },
            _ => {},
        }
    }

    /// Turn a switch; a field that is none stays.
    pub fn set_toggle(&mut self, f: Field, v: bool)
        ensures
            final(self)@ == if f == Field::Parallel {
                FormView { parallel: v, ..old(self)@ }
            } else {
                old(self)@
            },
    {
        if f == Field::Parallel {
            self.parallel = v;
        }
    }

    /// Whether a field applies, given what is chosen.
    pub fn is_active(&self, f: Field) -> (r: bool)
        ensures
            r == applies(self@, f),
    {
        match f {
            Field::Run => self.kind == 0,
            Field::Bin => self.kind == 1 || self.kind == 2,
            Field::BinArgs => self.kind == 2,
            Field::Dir => self.location == 1,
            Field::Packages => self.location == 2,
            _ => true,
        }
    }

    /// Whether the field in focus is a text.
    pub fn focus_is_text(&self) -> (r: bool)
        ensures
            r == is_text(self@.focus),
    {
        self.focus.holds_text()
    }

    /// Go on to the next field that applies.
    pub fn focus_next(&mut self)
        ensures
            final(self)@ == (FormView {
                focus: next_field(old(self)@, old(self)@.focus, FIELDS as nat),
                ..old(self)@
            }),
    {
        let ghost form = self@;
        let ghost from = self.focus;
        let mut f = self.focus;
        let mut steps: usize = FIELDS;
        while steps > 0 && !self.is_active(f.after())
            invariant
                form == self@,
                next_field(form, from, FIELDS as nat) == next_field(form, f, steps as nat),
            decreases steps,
        {
            f = f.after();
            steps -= 1;
        }
        self.focus = f.after();
    }

    /// Go back to the field before that applies.
    pub fn focus_prev(&mut self)
        ensures
            final(self)@ == (FormView {
                focus: prev_field(old(self)@, old(self)@.focus, FIELDS as nat),
                ..old(self)@
            }),
    {
        let ghost form = self@;
        let ghost from = self.focus;
        let mut f = self.focus;
        let mut steps: usize = FIELDS;
        while steps > 0 && !self.is_active(f.before())
            invariant
                form == self@,
                prev_field(form, from, FIELDS as nat) == prev_field(form, f, steps as nat),
            decreases steps,
        {
            f = f.before();
            steps -= 1;
        }
        self.focus = f.before();
    }

    /// Type a character into the field in focus, if that is a text.
    pub fn type_char(&mut self, c: char)
        ensures
            final(self)@ == with_text(
                old(self)@,
                old(self)@.focus,
                text_of(old(self)@, old(self)@.focus).push(c),
            ),
    {
        let f = self.focus;
        let mut s = self.text(f).to_string();
        s.push(c);
        self.set_text(f, s.as_str());
    }

    /// Take the last character of the field in focus away, if that is a text.
    pub fn backspace(&mut self)
        ensures
            ({
                let s = text_of(old(self)@, old(self)@.focus);
                final(self)@ == with_text(
                    old(self)@,
                    old(self)@.focus,
                    if s.len() > 0 {
                        s.drop_last()
                    } else {
                        s
                    },
                )
            }),
    {
        let f = self.focus;
        let cs = text::chars(self.text(f));
        if cs.len() == 0 {
            assert(with_text(self@, f, text_of(self@, f)) == self@);
            return ;
        }
        let s = text::slice(&cs, 0, cs.len() - 1);
        assert(s@ =~= text_of(self@, f).drop_last());
        self.set_text(f, s.as_str());
    }

    /// Change the field in focus, if it is a choice or a switch.
    pub fn adjust(&mut self, forward: bool)
        ensures
            final(self)@ == adjusted(old(self)@, forward),
    {
        let f = self.focus;
        if f == Field::Parallel {
            self.parallel = !self.parallel;
            return ;
        }
        let n: usize = match f {
            Field::Kind => 4,
            Field::Location => 3,
            _ => return ,
        };
        let i = self.choice(f);
        let next = if forward {
            if i >= n - 1 {
                0
            } else {
                i + 1
            }
        } else if i == 0 || i >= n {
            n - 1
        } else {
            i - 1
        };
        self.set_choice(f, next);
    }
}

// ---------------------------------------------------------------------------
// Writing
// ---------------------------------------------------------------------------
/// Of the first `n` pieces, those that are not blank, without the space around
/// them.
pub open spec fn items_of(pieces: Seq<Seq<char>>, n: int) -> Seq<Seq<char>>
    decreases n,
{
    if n <= 0 {
        Seq::empty()
    } else if text::trimmed(pieces[n - 1]).len() == 0 {
        items_of(pieces, n - 1)
    } else {
        items_of(pieces, n - 1).push(text::trimmed(pieces[n - 1]))
    }
}

/// The items of a comma-separated list.
pub open spec fn csv(s: Seq<char>) -> Seq<Seq<char>> {
    let pieces = text::split(s, ',');
    items_of(pieces, pieces.len() as int)
}

/// The key and the value of a `KEY=VALUE` entry.
pub open spec fn env_entry(p: Seq<char>) -> Result<(Seq<char>, Seq<char>), Seq<char>> {
    let at = text::index_from(p, '=', 0);
    if at >= p.len() {
        Err("env entry '"@ + p + "' must be KEY=VALUE"@)
    } else if text::trimmed(p.take(at)).len() == 0 {
        Err("env entry '"@ + p + "' has an empty key"@)
    } else {
        Ok((text::trimmed(p.take(at)), text::trimmed(p.skip(at + 1))))
    }
}

/// The pairs of the first `n` entries, or what is wrong with the first bad one.
pub open spec fn env_pairs(items: Seq<Seq<char>>, n: int) -> Result<
    Seq<(Seq<char>, Seq<char>)>,
    Seq<char>,
>
    decreases n,
{
    if n <= 0 {
        Ok(Seq::empty())
    } else {
        match env_pairs(items, n - 1) {
            Err(m) => Err(m),
            Ok(pairs) => match env_entry(items[n - 1]) {
                Err(m) => Err(m),
                Ok(p) => Ok(pairs.push(p)),
            },
        }
    }
}

/// The pairs of a comma-separated list of `KEY=VALUE` entries.
pub open spec fn env_of(s: Seq<char>) -> Result<Seq<(Seq<char>, Seq<char>)>, Seq<char>> {
    env_pairs(csv(s), csv(s).len() as int)
}

/// An array of strings.
pub open spec fn strings(items: Seq<Seq<char>>) -> TomlView {
    TomlView::Array(Seq::new(items.len(), |i: int| TomlView::Str(items[i])))
}

/// The table of the first `n` pairs.
pub open spec fn pairs_table(pairs: Seq<(Seq<char>, Seq<char>)>, n: int) -> Entries
    decreases n,
{
    if n <= 0 {
        Seq::empty()
    } else {
        toml::put(pairs_table(pairs, n - 1), pairs[n - 1].0, TomlView::Str(pairs[n - 1].1))
    }
}

/// The table of a delegate with arguments.
pub open spec fn delegate_table(bin: Seq<char>, args: Seq<Seq<char>>) -> Entries {
    let e = toml::put(Seq::empty(), "bin"@, TomlView::Str(bin));
    if args.len() == 0 {
        e
    } else {
        toml::put(e, "args"@, strings(args))
    }
}

/// What a task runs, as fields.
pub open spec fn kind_fields(form: FormView) -> Result<Entries, Seq<char>> {
    let run = text::trimmed(form.run);
    let bin = text::trimmed(form.bin);
    if form.kind == 0 {
        if run.len() == 0 {
            Err("run command is required"@)
        } else {
            Ok(toml::put(Seq::empty(), "run"@, TomlView::Str(run)))
        }
    } else if form.kind == 1 || form.kind == 2 {
        if bin.len() == 0 {
            Err("delegate bin is required"@)
        } else if form.kind == 1 {
            Ok(toml::put(Seq::empty(), "delegate"@, TomlView::Str(bin)))
        } else {
            Ok(
                toml::put(
                    Seq::empty(),
                    "delegate"@,
                    TomlView::Inline(delegate_table(bin, text::words(form.bin_args))),
                ),
            )
        }
    } else {
        Ok(Seq::empty())
    }
}

/// The fields with an array of strings, where there are any.
pub open spec fn with_strings(e: Entries, key: Seq<char>, items: Seq<Seq<char>>) -> Entries {
    if items.len() == 0 {
        e
    } else {
        toml::put(e, key, strings(items))
    }
}

/// The fields with where a task runs.
pub open spec fn with_location(form: FormView, e: Entries) -> Entries {
    if form.location == 1 {
        if text::trimmed(form.dir).len() == 0 {
            e
        } else {
            toml::put(e, "dir"@, TomlView::Str(text::trimmed(form.dir)))
        }
    } else if form.location == 2 {
        with_strings(e, "packages"@, csv(form.packages))
    } else {
        e
    }
}

/// The fields with a task's env files: one as a string, several as an array.
pub open spec fn with_env_files(e: Entries, files: Seq<Seq<char>>) -> Entries {
    if files.len() == 1 {
        toml::put(e, "env_file"@, TomlView::Str(files[0]))
    } else {
        with_strings(e, "env_file"@, files)
    }
}

/// The name and the fields of the task that a form describes, or what is wrong
/// with the form.
pub open spec fn task_of(form: FormView) -> Result<(Seq<char>, Entries), Seq<char>> {
    let name = text::trimmed(form.name);
    if name.len() == 0 {
        Err("name is required"@)
    } else if config::key_error(name) is Some {
        Err(error::bare(config::key_error(name)->0))
    } else {
        match kind_fields(form) {
            Err(m) => Err(m),
            Ok(e) => {
                let e = with_location(form, e);
                let e = with_strings(e, "deps"@, csv(form.deps));
                let e = with_strings(e, "args"@, text::words(form.args));
                let e = if form.parallel {
                    toml::put(e, "parallel"@, TomlView::Bool(true))
                } else {
                    e
                };
                match env_of(form.env) {
                    Err(m) => Err(m),
                    Ok(pairs) => {
                        let e = if pairs.len() == 0 {
                            e
                        } else {
                            toml::put(
                                e,
                                "env"@,
                                TomlView::Inline(pairs_table(pairs, pairs.len() as int)),
                            )
                        };
                        Ok((name, with_env_files(e, csv(form.env_file))))
                    },
                }
            },
        }
    }
}

/// The items of a comma-separated list.
pub fn split_csv(s: &str) -> (r: Vec<String>)
    ensures
        text::texts(r@) == csv(s@),
{
    let pieces = text::split_at_char(&text::chars(s), ',');
    let ghost all = text::texts(pieces@);
    let mut out: Vec<String> = Vec::new();
    let mut i: usize = 0;
    assert(text::texts(out@) =~= Seq::empty());
    while i < pieces.len()
        invariant
            i <= pieces.len(),
            all == text::texts(pieces@),
            text::texts(out@) == items_of(all, i as int),
        decreases pieces.len() - i,
    {
        assert(all[i as int] == pieces@[i as int]@);
        let item = text::trim_str(pieces[i].as_str());
        if text::chars(item.as_str()).len() > 0 {
            let ghost before = text::texts(out@);
            let ghost seen = item@;
            out.push(item);
            assert(text::texts(out@) =~= before.push(seen));
        }
        i += 1;
    }
    out
}

/// The items of a list with space between them.
pub fn split_ws(s: &str) -> (r: Vec<String>)
    ensures
        text::texts(r@) == text::words(s@),
{
    text::split_words(&text::chars(s))
}

fn parse_env_entry(p: &str) -> (r: Result<(String, String), String>)
    ensures
        match r {
            Ok(pair) => env_entry(p@) == Ok::<(Seq<char>, Seq<char>), Seq<char>>(
                (pair.0@, pair.1@),
            ),
            Err(m) => env_entry(p@) == Err::<(Seq<char>, Seq<char>), Seq<char>>(m@),
        },
{
    let cs = text::chars(p);
    let at = text::find(&cs, '=', 0);
    proof {
        text::lemma_index_from(p@, '=', 0);
    }
    if at >= cs.len() {
        return Err(text::join3("env entry '", p, "' must be KEY=VALUE"));
    }
    let key = text::trim_str(text::slice(&cs, 0, at).as_str());
    let value = text::trim_str(text::slice(&cs, at + 1, cs.len()).as_str());
    assert(p@.subrange(0, at as int) =~= p@.take(at as int));
    assert(p@.subrange(at + 1, p@.len() as int) =~= p@.skip(at + 1));
    if text::chars(key.as_str()).len() == 0 {
        return Err(text::join3("env entry '", p, "' has an empty key"));
    }
    Ok((key, value))
}

proof fn lemma_env_pairs_err(items: Seq<Seq<char>>, k: int, n: int)
    requires
        0 <= k <= n,
        env_pairs(items, k) is Err,
    ensures
        env_pairs(items, n) == env_pairs(items, k),
    decreases n - k,
{
    if k < n {
        lemma_env_pairs_err(items, k, n - 1);
    }
}

/// The pairs of a comma-separated list of `KEY=VALUE` entries.
pub fn parse_env(s: &str) -> (r: Result<Vec<(String, String)>, String>)
    ensures
        match r {
            Ok(v) => env_of(s@) == Ok::<Seq<(Seq<char>, Seq<char>)>, Seq<char>>(
                config::pair_views(v@),
            ),
            Err(m) => env_of(s@) == Err::<Seq<(Seq<char>, Seq<char>)>, Seq<char>>(m@),
        },
{
    let items = split_csv(s);
    let ghost all = text::texts(items@);
    assert(all.len() == items.len());
    let mut out: Vec<(String, String)> = Vec::new();
    let mut i: usize = 0;
    assert(config::pair_views(out@) =~= Seq::empty());
    while i < items.len()
        invariant
            i <= items.len(),
            all == text::texts(items@),
            all == csv(s@),
            env_pairs(all, i as int) == Ok::<Seq<(Seq<char>, Seq<char>)>, Seq<char>>(
                config::pair_views(out@),
            ),
        decreases items.len() - i,
    {
        assert(all[i as int] == items@[i as int]@);
        match parse_env_entry(items[i].as_str()) {
            Ok(pair) => {
                let ghost before = config::pair_views(out@);
                let ghost seen = (pair.0@, pair.1@);
                out.push(pair);
                assert(config::pair_views(out@) =~= before.push(seen));
            },
            Err(m) => {
                proof {
                    lemma_env_pairs_err(all, i + 1, all.len() as int);
                }
                return Err(m);
            },
        }
        i += 1;
    }
    Ok(out)
}

/// An array of strings.
fn array_value(items: &Vec<String>) -> (r: Toml)
    ensures
        r@ == strings(text::texts(items@)),
        toml::is_simple(r@),
{
    let ghost all = text::texts(items@);
    let mut out: Vec<Toml> = Vec::new();
    let mut i: usize = 0;
    while i < items.len()
        invariant
            i <= items.len(),
            all == text::texts(items@),
            out.len() == i,
            forall|j: int| 0 <= j < i ==> (#[trigger] out@[j])@ == TomlView::Str(all[j]),
        decreases items.len() - i,
    {
        out.push(Toml::Str(items[i].clone()));
        i += 1;
    }
    let r = Toml::Array(out);
    proof {
        toml::lemma_view_parts(r);
        assert(toml::value_views(out@) =~= Seq::new(all.len(), |i: int| TomlView::Str(all[i])));
    }
    r
}

/// Put a field; the entries stay fit to be written.
fn put_field(e: &mut Vec<(String, Toml)>, key: &str, v: Toml)
    requires
        toml::are_fields(toml::entry_views(old(e)@)),
        toml::is_field(v@),
    ensures
        toml::entry_views(final(e)@) == toml::put(toml::entry_views(old(e)@), key@, v@),
        toml::are_fields(toml::entry_views(final(e)@)),
{
    proof {
        toml::lemma_put(toml::entry_views(e@), key@, v@);
    }
    toml::put_entry(e, key, v);
}

/// Put an array of strings, where there are any.
fn put_strings(e: &mut Vec<(String, Toml)>, key: &str, items: &Vec<String>)
    requires
        toml::are_fields(toml::entry_views(old(e)@)),
    ensures
        toml::entry_views(final(e)@) == with_strings(
            toml::entry_views(old(e)@),
            key@,
            text::texts(items@),
        ),
        toml::are_fields(toml::entry_views(final(e)@)),
{
    assert(text::texts(items@).len() == items.len());
    if items.len() > 0 {
        put_field(e, key, array_value(items));
    }
}

/// A `{ ... }` table.
fn inline(e: Vec<(String, Toml)>) -> (r: Toml)
    requires
        toml::are_simple(toml::entry_views(e@)),
    ensures
        r@ == TomlView::Inline(toml::entry_views(e@)),
        toml::is_field(r@),
{
    let r = Toml::Inline(e);
    proof {
        toml::lemma_view_parts(r);
    }
    r
}

/// Put a simple value into a `{ ... }` table.
fn put_simple(e: &mut Vec<(String, Toml)>, key: &str, v: Toml)
    requires
        toml::are_simple(toml::entry_views(old(e)@)),
        toml::is_simple(v@),
    ensures
        toml::entry_views(final(e)@) == toml::put(toml::entry_views(old(e)@), key@, v@),
        toml::are_simple(toml::entry_views(final(e)@)),
{
    proof {
        toml::lemma_put(toml::entry_views(e@), key@, v@);
    }
    toml::put_entry(e, key, v);
}

fn env_value(pairs: &Vec<(String, String)>) -> (r: Toml)
    ensures
        r@ == TomlView::Inline(
            pairs_table(config::pair_views(pairs@), config::pair_views(pairs@).len() as int),
        ),
        toml::is_field(r@),
{
    let ghost all = config::pair_views(pairs@);
    let mut e: Vec<(String, Toml)> = Vec::new();
    let mut i: usize = 0;
    assert(toml::entry_views(e@) =~= Seq::empty());
    while i < pairs.len()
        invariant
            i <= pairs.len(),
            all == config::pair_views(pairs@),
            toml::entry_views(e@) == pairs_table(all, i as int),
            toml::are_simple(toml::entry_views(e@)),
        decreases pairs.len() - i,
    {
        assert(all[i as int] == (pairs@[i as int].0@, pairs@[i as int].1@));
        put_simple(&mut e, pairs[i].0.as_str(), Toml::Str(pairs[i].1.clone()));
        i += 1;
    }
    inline(e)
}

fn delegate_value(bin: &str, args: &Vec<String>) -> (r: Toml)
    ensures
        r@ == TomlView::Inline(delegate_table(bin@, text::texts(args@))),
        toml::is_field(r@),
{
    let mut e: Vec<(String, Toml)> = Vec::new();
    assert(toml::entry_views(e@) =~= Seq::empty());
    put_simple(&mut e, "bin", Toml::Str(bin.to_string()));
    assert(text::texts(args@).len() == args.len());
    if args.len() > 0 {
        put_simple(&mut e, "args", array_value(args));
    }
    inline(e)
}

fn put_kind(form: &FormState, e: &mut Vec<(String, Toml)>) -> (r: Result<(), String>)
    requires
        toml::entry_views(old(e)@) == Seq::<(Seq<char>, TomlView)>::empty(),
    ensures
        match r {
            Ok(_) => kind_fields(form@) == Ok::<Entries, Seq<char>>(toml::entry_views(final(e)@))
                && toml::are_fields(toml::entry_views(final(e)@)),
            Err(m) => kind_fields(form@) == Err::<Entries, Seq<char>>(m@),
        },
{
    if form.kind == 0 {
        let run = text::trim_str(form.run.as_str());
        if text::chars(run.as_str()).len() == 0 {
            return Err("run command is required".to_string());
        }
        put_field(e, "run", Toml::Str(run));
    } else if form.kind == 1 || form.kind == 2 {
        let bin = text::trim_str(form.bin.as_str());
        if text::chars(bin.as_str()).len() == 0 {
            return Err("delegate bin is required".to_string());
        }
        if form.kind == 1 {
            put_field(e, "delegate", Toml::Str(bin));
        } else {
            let args = split_ws(form.bin_args.as_str());
            put_field(e, "delegate", delegate_value(bin.as_str(), &args));
        }
    }
    Ok(())
}

/// The name and the fields of the task that a form describes, or what is wrong
/// with the form.
pub fn build_task_table(form: &FormState) -> (r: Result<(String, Vec<(String, Toml)>), String>)
    ensures
        match r {
            Ok(t) => task_of(form@) == Ok::<(Seq<char>, Entries), Seq<char>>(
                (t.0@, toml::entry_views(t.1@)),
            ) && toml::are_fields(toml::entry_views(t.1@)),
            Err(m) => task_of(form@) == Err::<(Seq<char>, Entries), Seq<char>>(m@),
        },
{
    let name = text::trim_str(form.name.as_str());
    if text::chars(name.as_str()).len() == 0 {
        return Err("name is required".to_string());
    }
    if let Err(e) = config::validate_task_name(name.as_str()) {
        return Err(e.bare_message());
    }
    let mut e: Vec<(String, Toml)> = Vec::new();
    assert(toml::entry_views(e@) =~= Seq::empty());
    if let Err(m) = put_kind(form, &mut e) {
        return Err(m);
    }
    if form.location == 1 {
        let dir = text::trim_str(form.dir.as_str());
        if text::chars(dir.as_str()).len() > 0 {
            put_field(&mut e, "dir", Toml::Str(dir));
        }
    } else if form.location == 2 {
        put_strings(&mut e, "packages", &split_csv(form.packages.as_str()));
    }
    put_strings(&mut e, "deps", &split_csv(form.deps.as_str()));
    put_strings(&mut e, "args", &split_ws(form.args.as_str()));
    if form.parallel {
        put_field(&mut e, "parallel", Toml::Bool(true));
    }
    let pairs = match parse_env(form.env.as_str()) {
        Ok(v) => v,
        Err(m) => return Err(m),
    };
    assert(config::pair_views(pairs@).len() == pairs.len());
    if pairs.len() > 0 {
        put_field(&mut e, "env", env_value(&pairs));
    }
    let files = split_csv(form.env_file.as_str());
    assert(text::texts(files@).len() == files.len());
    if files.len() == 1 {
        assert(text::texts(files@)[0] == files@[0]@);
        put_field(&mut e, "env_file", Toml::Str(files[0].clone()));
    } else {
        put_strings(&mut e, "env_file", &files);
    }
    Ok((name, e))
}

/// How many keys of a task a form knows.
pub const FORM_KEYS: usize = 9;

/// The keys of a task that a form knows.
pub open spec fn form_key(i: int) -> Seq<char> {
    if i == 0 {
        "run"@
    } else if i == 1 {
        "delegate"@
    } else if i == 2 {
        "dir"@
    } else if i == 3 {
        "packages"@
    } else if i == 4 {
        "deps"@
    } else if i == 5 {
        "args"@
    } else if i == 6 {
        "parallel"@
    } else if i == 7 {
        "env"@
    } else {
        "env_file"@
    }
}

/// Whether a form knows a key of a task.
pub open spec fn is_form_key(key: Seq<char>) -> bool {
    exists|i: int| 0 <= i < FORM_KEYS && #[trigger] form_key(i) == key
}

/// The keys of a task that a form knows.
pub fn form_key_at(i: usize) -> (r: &'static str)
    requires
        i < FORM_KEYS,
    ensures
        r@ == form_key(i as int),
{
    if i == 0 {
        "run"
    } else if i == 1 {
        "delegate"
    } else if i == 2 {
        "dir"
    } else if i == 3 {
        "packages"
    } else if i == 4 {
        "deps"
    } else if i == 5 {
        "args"
    } else if i == 6 {
        "parallel"
    } else if i == 7 {
        "env"
    } else {
        "env_file"
    }
}

// ---------------------------------------------------------------------------
// Reading
// ---------------------------------------------------------------------------
/// The texts among the first `n` items.
pub open spec fn item_texts(items: Seq<TomlView>, n: int) -> Seq<Seq<char>>
    decreases n,
{
    if n <= 0 {
        Seq::empty()
    } else {
        match items[n - 1] {
            TomlView::Str(s) => item_texts(items, n - 1).push(s),
            _ => item_texts(items, n - 1),
        }
    }
}

/// The texts of an array, where there is one.
pub open spec fn array_texts(v: Option<TomlView>) -> Seq<Seq<char>> {
    match v {
        Some(TomlView::Array(items)) => item_texts(items, items.len() as int),
        _ => Seq::empty(),
    }
}

/// The `KEY=VALUE` texts of those of the first `n` entries that are strings.
pub open spec fn pair_texts(e: Entries, n: int) -> Seq<Seq<char>>
    decreases n,
{
    if n <= 0 {
        Seq::empty()
    } else {
        match e[n - 1].1 {
            TomlView::Str(s) => pair_texts(e, n - 1).push(e[n - 1].0 + "="@ + s),
            _ => pair_texts(e, n - 1),
        }
    }
}

/// An array as a comma-separated list.
pub open spec fn csv_text(v: Option<TomlView>) -> Seq<char> {
    text::joined(array_texts(v), ", "@)
}

/// An array as a list with space between the items.
pub open spec fn ws_text(v: Option<TomlView>) -> Seq<char> {
    text::joined(array_texts(v), " "@)
}

/// A table as a comma-separated list of `KEY=VALUE` entries.
pub open spec fn env_text(v: Option<TomlView>) -> Seq<char> {
    match v {
        Some(t) => match toml::fields(t) {
            Some(e) => text::joined(pair_texts(e, e.len() as int), ", "@),
            None => Seq::empty(),
        },
        None => Seq::empty(),
    }
}

/// A string, or an array as a comma-separated list.
pub open spec fn env_file_text(v: Option<TomlView>) -> Seq<char> {
    match v {
        Some(TomlView::Str(s)) => s,
        _ => csv_text(v),
    }
}

/// The entries of a task's table, where there is one.
pub open spec fn task_table(doc: Entries, key: Seq<char>) -> Option<Entries> {
    match toml::lookup(doc, "tasks"@) {
        Some(tasks) => match toml::field(tasks, key) {
            Some(t) => toml::fields(t),
            None => None,
        },
        None => None,
    }
}

/// The form with what a task runs read from its fields.
pub open spec fn with_kind_of(form: FormView, t: Entries) -> FormView {
    match toml::lookup(t, "run"@) {
        Some(TomlView::Str(run)) => FormView { kind: 0, run, ..form },
        _ => match toml::lookup(t, "delegate"@) {
            None => FormView { kind: 3, ..form },
            Some(TomlView::Str(bin)) => FormView { kind: 1, bin, ..form },
            Some(d) => match toml::fields(d) {
                None => form,
                Some(e) => FormView {
                    kind: 2,
                    bin: match toml::lookup(e, "bin"@) {
                        Some(TomlView::Str(bin)) => bin,
                        _ => form.bin,
                    },
                    bin_args: ws_text(toml::lookup(e, "args"@)),
                    ..form
                },
            },
        },
    }
}

/// The form with where a task runs read from its fields.
pub open spec fn with_location_of(form: FormView, t: Entries) -> FormView {
    match toml::lookup(t, "dir"@) {
        Some(TomlView::Str(dir)) => FormView { location: 1, dir, ..form },
        _ => match toml::lookup(t, "packages"@) {
            Some(p) => FormView { location: 2, packages: csv_text(Some(p)), ..form },
            None => form,
        },
    }
}

/// The form for a task of a document.
pub open spec fn form_of(doc: Entries, key: Seq<char>) -> FormView {
    let form = FormView { original: Some(key), name: key, ..blank() };
    match task_table(doc, key) {
        None => form,
        Some(t) => {
            let form = with_location_of(with_kind_of(form, t), t);
            FormView {
                deps: csv_text(toml::lookup(t, "deps"@)),
                args: ws_text(toml::lookup(t, "args"@)),
                parallel: match toml::lookup(t, "parallel"@) {
                    Some(TomlView::Bool(b)) => b,
                    _ => form.parallel,
                },
                env: env_text(toml::lookup(t, "env"@)),
                env_file: env_file_text(toml::lookup(t, "env_file"@)),
                ..form
            }
        },
    }
}

/// What a value holds, where there is one.
pub open spec fn opt_view(v: Option<&Toml>) -> Option<TomlView> {
    match v {
        Some(t) => Some(t@),
        None => None,
    }
}

/// The texts of an array, where there is one.
pub fn array_strings(item: Option<&Toml>) -> (r: Vec<String>)
    ensures
        text::texts(r@) == array_texts(opt_view(item)),
{
    let mut out: Vec<String> = Vec::new();
    assert(text::texts(out@) =~= Seq::empty());
    let items = match item {
        Some(t) => match t.as_array() {
            Some(v) => v,
            None => return out,
        },
        None => return out,
    };
    let ghost all = toml::value_views(items@);
    let mut i: usize = 0;
    while i < items.len()
        invariant
            i <= items.len(),
            all == toml::value_views(items@),
            text::texts(out@) == item_texts(all, i as int),
        decreases items.len() - i,
    {
        assert(all[i as int] == items@[i as int]@);
        if let Some(s) = items[i].as_str() {
            let ghost before = text::texts(out@);
            out.push(s.clone());
            assert(text::texts(out@) =~= before.push(s@));
        }
        i += 1;
    }
    out
}

/// An array as a comma-separated list.
pub fn join_csv(item: Option<&Toml>) -> (r: String)
    ensures
        r@ == csv_text(opt_view(item)),
{
    text::join(&array_strings(item), ", ")
}

/// An array as a list with space between the items.
pub fn join_ws(item: Option<&Toml>) -> (r: String)
    ensures
        r@ == ws_text(opt_view(item)),
{
    text::join(&array_strings(item), " ")
}

/// A table as a comma-separated list of `KEY=VALUE` entries.
pub fn join_env(item: Option<&Toml>) -> (r: String)
    ensures
        r@ == env_text(opt_view(item)),
{
    let entries = match item {
        Some(t) => match t.as_table_like() {
            Some(v) => v,
            None => return String::new(),
        },
        None => return String::new(),
    };
    let ghost all = toml::entry_views(entries@);
    let mut out: Vec<String> = Vec::new();
    let mut i: usize = 0;
    assert(text::texts(out@) =~= Seq::empty());
    while i < entries.len()
        invariant
            i <= entries.len(),
            all == toml::entry_views(entries@),
            text::texts(out@) == pair_texts(all, i as int),
        decreases entries.len() - i,
    {
        assert(all[i as int] == (entries@[i as int].0@, entries@[i as int].1@));
        if let Some(s) = entries[i].1.as_str() {
            let ghost before = text::texts(out@);
            let pair = text::join3(entries[i].0.as_str(), "=", s.as_str());
            let ghost seen = pair@;
            out.push(pair);
            assert(text::texts(out@) =~= before.push(seen));
        }
        i += 1;
    }
    text::join(&out, ", ")
}

/// A string, or an array as a comma-separated list.
pub fn join_env_file(item: Option<&Toml>) -> (r: String)
    ensures
        r@ == env_file_text(opt_view(item)),
{
    if let Some(t) = item {
        if let Some(s) = t.as_str() {
            return s.clone();
        }
    }
    join_csv(item)
}

/// The entries of a task's table, where there is one.
pub fn find_table<'a>(doc: &'a Vec<(String, Toml)>, key: &str) -> (r: Option<
    &'a Vec<(String, Toml)>,
>)
    ensures
        match r {
            Some(e) => task_table(toml::entry_views(doc@), key@) == Some(toml::entry_views(e@)),
            None => task_table(toml::entry_views(doc@), key@) is None,
        },
{
    match toml::get(doc, "tasks") {
        Some(tasks) => match tasks.get(key) {
            Some(t) => t.as_table_like(),
            None => None,
        },
        None => None,
    }
}

impl FormState {
    fn read_kind(&mut self, t: &Vec<(String, Toml)>)
        ensures
            final(self)@ == with_kind_of(old(self)@, toml::entry_views(t@)),
    {
        if let Some(run) = toml::get_str(t, "run") {
            self.kind = 0;
            self.run = run.clone();
            return ;
        }
        match toml::get(t, "delegate") {
            None => {
                self.kind = 3;
            },
            Some(d) => {
                if let Some(bin) = d.as_str() {
                    self.kind = 1;
                    self.bin = bin.clone();
                } else if let Some(e) = d.as_table_like() {
                    self.kind = 2;
                    if let Some(bin) = toml::get_str(e, "bin") {
                        self.bin = bin.clone();
                    }
                    self.bin_args = join_ws(toml::get(e, "args"));
                }
            },
        }
    }

    fn read_location(&mut self, t: &Vec<(String, Toml)>)
        ensures
            final(self)@ == with_location_of(old(self)@, toml::entry_views(t@)),
    {
        if let Some(dir) = toml::get_str(t, "dir") {
            self.location = 1;
            self.dir = dir.clone();
            return ;
        }
        let packages = toml::get(t, "packages");
        if packages.is_some() {
            self.location = 2;
            self.packages = join_csv(packages);
        }
    }

    /// The form for a task of a document.
    pub fn from_doc(doc: &Vec<(String, Toml)>, key: &str) -> (form: FormState)
        ensures
            form@ == form_of(toml::entry_views(doc@), key@),
    {
        let mut form = FormState::new_task();
        form.original = Some(key.to_string());
        form.name = key.to_string();
        let t = match find_table(doc, key) {
            Some(t) => t,
            None => return form,
        };
        form.read_kind(t);
        form.read_location(t);
        form.deps = join_csv(toml::get(t, "deps"));
        form.args = join_ws(toml::get(t, "args"));
        if let Some(v) = toml::get(t, "parallel") {
            if let Some(b) = v.as_bool() {
                form.parallel = b;
            }
        }
        form.env = join_env(toml::get(t, "env"));
        form.env_file = join_env_file(toml::get(t, "env_file"));
        form
    }
}

// ---------------------------------------------------------------------------
// Laws
// ---------------------------------------------------------------------------
proof fn lemma_next_field(form: FormView, f: Field, steps: nat)
    requires
        steps >= 12 - index_of(f),
    ensures
        applies(form, next_field(form, f, steps)),
    decreases steps,
{
    if !applies(form, field_after(f)) {
        assert(f != Field::EnvFile);
        assert(index_of(field_after(f)) == index_of(f) + 1);
        lemma_next_field(form, field_after(f), (steps - 1) as nat);
    }
}

proof fn lemma_prev_field(form: FormView, f: Field, steps: nat)
    requires
        steps >= index_of(f),
    ensures
        applies(form, prev_field(form, f, steps)),
    decreases steps,
{
    if !applies(form, field_before(f)) {
        assert(f != Field::Name);
        assert(index_of(field_before(f)) == index_of(f) - 1);
        lemma_prev_field(form, field_before(f), (steps - 1) as nat);
    }
}

/// The focus comes to rest only on a field that applies.
pub proof fn law_focus_rests_on_fields_that_apply(form: FormView, f: Field)
    ensures
        applies(form, next_field(form, f, FIELDS as nat)),
        applies(form, prev_field(form, f, FIELDS as nat)),
{
    lemma_next_field(form, f, FIELDS as nat);
    lemma_prev_field(form, f, FIELDS as nat);
}

/// Whether a text can be an item of a comma-separated list.
pub open spec fn is_item(s: Seq<char>) -> bool {
    s.len() > 0 && text::is_trimmed(s) && !s.contains(',')
}

proof fn lemma_items(pieces: Seq<Seq<char>>, n: int)
    requires
        0 <= n <= pieces.len(),
        forall|i: int| 0 <= i < pieces.len() ==> !(#[trigger] pieces[i]).contains(','),
    ensures
        forall|i: int| 0 <= i < items_of(pieces, n).len() ==> is_item(#[trigger] items_of(pieces, n)[i]),
    decreases n,
{
    if n > 0 {
        lemma_items(pieces, n - 1);
        let before = items_of(pieces, n - 1);
        let all = items_of(pieces, n);
        text::lemma_trimmed(pieces[n - 1], ',');
        assert forall|i: int| 0 <= i < all.len() implies is_item(#[trigger] all[i]) by {
            if i < before.len() {
                assert(all[i] == before[i]);
            }
        }
    }
}

proof fn lemma_csv_items(s: Seq<char>)
    ensures
        forall|i: int| 0 <= i < csv(s).len() ==> is_item(#[trigger] csv(s)[i]),
{
    let pieces = text::split(s, ',');
    text::lemma_split_pieces(s, ',');
    lemma_items(pieces, pieces.len() as int);
}

/// The items with a space in front of all but the first.
spec fn spaced(items: Seq<Seq<char>>) -> Seq<Seq<char>> {
    Seq::new(
        items.len(),
        |i: int|
            if i == 0 {
                items[0]
            } else {
                seq![' '] + items[i]
            },
    )
}

proof fn lemma_joined_spaced(items: Seq<Seq<char>>)
    ensures
        text::joined(items, ", "@) == text::joined(spaced(items), seq![',']),
    decreases items.len(),
{
    reveal_strlit(", ");
    assert(", "@ =~= seq![',', ' ']);
    if items.len() >= 2 {
        let front = items.drop_last();
        lemma_joined_spaced(front);
        assert(spaced(items).drop_last() =~= spaced(front));
        assert(spaced(items).last() == seq![' '] + items.last());
        assert(text::joined(front, ", "@) + ", "@ + items.last() =~= text::joined(
            spaced(front),
            seq![','],
        ) + seq![','] + (seq![' '] + items.last()));
    }
}

proof fn lemma_items_of_spaced(items: Seq<Seq<char>>, n: int)
    requires
        0 <= n <= items.len(),
        forall|i: int| 0 <= i < items.len() ==> is_item(#[trigger] items[i]),
    ensures
        items_of(spaced(items), n) == items.take(n),
    decreases n,
{
    if n > 0 {
        lemma_items_of_spaced(items, n - 1);
        let item = items[n - 1];
        assert(is_item(item));
        text::lemma_trimmed(item, ',');
        text::lemma_trimmed_spaced(item);
        assert(items.take(n) =~= items.take(n - 1).push(item));
    } else {
        assert(items.take(0) =~= Seq::empty());
    }
}

/// The items of a comma-separated list are found again in the list they are shown
/// as.
pub proof fn law_lists_read_back(items: Seq<Seq<char>>)
    requires
        forall|i: int| 0 <= i < items.len() ==> is_item(#[trigger] items[i]),
    ensures
        csv(text::joined(items, ", "@)) == items,
{
    lemma_joined_spaced(items);
    if items.len() == 0 {
        let one = seq![Seq::<char>::empty()];
        text::lemma_split_joined(one, ',');
        assert(text::joined(items, ", "@) =~= text::joined(one, seq![',']));
        text::lemma_trimmed(Seq::<char>::empty(), ',');
        reveal_with_fuel(items_of, 2);
        assert(csv(text::joined(items, ", "@)) =~= items);
    } else {
        let all = spaced(items);
        assert forall|i: int| 0 <= i < all.len() implies !(#[trigger] all[i]).contains(',') by {
            assert(is_item(items[i]));
            if all[i].contains(',') {
                let k = choose|k: int| 0 <= k < all[i].len() && all[i][k] == ',';
                if i > 0 {
                    assert(items[i][k - 1] == ',');
                }
            }
        }
        text::lemma_split_joined(all, ',');
        lemma_items_of_spaced(items, items.len() as int);
        assert(items.take(items.len() as int) =~= items);
    }
}

proof fn lemma_item_texts(items: Seq<Seq<char>>, n: int)
    requires
        0 <= n <= items.len(),
    ensures
        item_texts(strings(items)->Array_0, n) == items.take(n),
    decreases n,
{
    if n > 0 {
        lemma_item_texts(items, n - 1);
        assert(items.take(n) =~= items.take(n - 1).push(items[n - 1]));
    } else {
        assert(items.take(0) =~= Seq::empty());
    }
}

proof fn lemma_csv_field(s: Seq<char>)
    ensures
        csv(csv_text(Some(strings(csv(s))))) == csv(s),
        csv(csv_text(None)) == Seq::<Seq<char>>::empty(),
{
    lemma_csv_items(s);
    let items = csv(s);
    lemma_item_texts(items, items.len() as int);
    assert(items.take(items.len() as int) =~= items);
    law_lists_read_back(items);
    law_lists_read_back(Seq::empty());
}

proof fn lemma_ws_field(s: Seq<char>)
    ensures
        text::words(ws_text(Some(strings(text::words(s))))) == text::words(s),
        text::words(ws_text(None)) == Seq::<Seq<char>>::empty(),
{
    let items = text::words(s);
    lemma_item_texts(items, items.len() as int);
    assert(items.take(items.len() as int) =~= items);
    text::lemma_words_are_words(s);
    reveal_strlit(" ");
    assert(" "@ =~= seq![' ']);
    text::lemma_words_joined(items);
    text::lemma_words_joined(Seq::empty());
}

// What is kept of an env entry.
spec fn is_pair(p: (Seq<char>, Seq<char>)) -> bool {
    &&& p.0.len() > 0
    &&& text::is_trimmed(p.0)
    &&& text::is_trimmed(p.1)
    &&& !p.0.contains(',')
    &&& !p.1.contains(',')
    &&& !p.0.contains('=')
}

proof fn lemma_env_entry(p: Seq<char>)
    requires
        is_item(p),
        env_entry(p) is Ok,
    ensures
        is_pair(env_entry(p)->Ok_0),
{
    let at = text::index_from(p, '=', 0);
    text::lemma_index_from(p, '=', 0);
    let k = p.take(at);
    let v = p.skip(at + 1);
    assert(!k.contains('='));
    assert(!k.contains(',')) by {
        if k.contains(',') {
            let i = choose|i: int| 0 <= i < k.len() && k[i] == ',';
            assert(p[i] == ',');
        }
    }
    assert(!v.contains(',')) by {
        if v.contains(',') {
            let i = choose|i: int| 0 <= i < v.len() && v[i] == ',';
            assert(p[at + 1 + i] == ',');
        }
    }
    text::lemma_trimmed(k, '=');
    text::lemma_trimmed(k, ',');
    text::lemma_trimmed(v, ',');
}

proof fn lemma_pair_text(p: (Seq<char>, Seq<char>))
    requires
        is_pair(p),
    ensures
        is_item(p.0 + "="@ + p.1),
        env_entry(p.0 + "="@ + p.1) == Ok::<(Seq<char>, Seq<char>), Seq<char>>(p),
{
    reveal_strlit("=");
    assert("="@ =~= seq!['=']);
    let s = p.0 + "="@ + p.1;
    assert(s[p.0.len() as int] == '=');
    text::lemma_index_from(s, '=', 0);
    let at = text::index_from(s, '=', 0);
    if at < p.0.len() {
        assert(p.0[at] == '=');
        assert(p.0.contains('='));
    }
    assert(at == p.0.len());
    assert(s.take(at) =~= p.0);
    assert(s.skip(at + 1) =~= p.1);
    text::lemma_trimmed(p.0, '=');
    text::lemma_trimmed(p.1, '=');
    assert(s[0] == p.0[0]);
    if p.1.len() > 0 {
        assert(s.last() == p.1.last());
    } else {
        assert(s.last() == '=');
    }
    if s.contains(',') {
        let i = choose|i: int| 0 <= i < s.len() && s[i] == ',';
        if i < p.0.len() {
            assert(p.0[i] == ',');
        } else if i > p.0.len() {
            assert(p.1[i - p.0.len() - 1] == ',');
        }
    }
}

// The entries of an env table, as pairs.
spec fn pairs_of(e: Entries) -> Seq<(Seq<char>, Seq<char>)> {
    Seq::new(e.len(), |i: int| (e[i].0, e[i].1->Str_0))
}

spec fn is_env_table(e: Entries) -> bool {
    &&& toml::distinct(e)
    &&& forall|i: int|
        0 <= i < e.len() ==> (#[trigger] e[i]).1 is Str && is_pair((e[i].0, e[i].1->Str_0))
}

proof fn lemma_env_pairs(items: Seq<Seq<char>>, n: int)
    requires
        0 <= n <= items.len(),
        forall|i: int| 0 <= i < items.len() ==> is_item(#[trigger] items[i]),
        env_pairs(items, n) is Ok,
    ensures
        forall|i: int|
            0 <= i < env_pairs(items, n)->Ok_0.len() ==> is_pair(
                #[trigger] env_pairs(items, n)->Ok_0[i],
            ),
    decreases n,
{
    if n > 0 {
        lemma_env_pairs(items, n - 1);
        assert(is_item(items[n - 1]));
        lemma_env_entry(items[n - 1]);
        let before = env_pairs(items, n - 1)->Ok_0;
        let all = env_pairs(items, n)->Ok_0;
        assert forall|i: int| 0 <= i < all.len() implies is_pair(#[trigger] all[i]) by {
            if i < before.len() {
                assert(all[i] == before[i]);
            }
        }
    }
}

proof fn lemma_pairs_table(pairs: Seq<(Seq<char>, Seq<char>)>, n: int)
    requires
        0 <= n <= pairs.len(),
        forall|i: int| 0 <= i < pairs.len() ==> is_pair(#[trigger] pairs[i]),
    ensures
        is_env_table(pairs_table(pairs, n)),
        n > 0 ==> pairs_table(pairs, n).len() > 0,
    decreases n,
{
    if n > 0 {
        lemma_pairs_table(pairs, n - 1);
        let before = pairs_table(pairs, n - 1);
        let p = pairs[n - 1];
        assert(is_pair(p));
        let v = TomlView::Str(p.1);
        let all = toml::put(before, p.0, v);
        toml::lemma_put(before, p.0, v);
        toml::lemma_key_at(before, p.0);
        assert forall|i: int| 0 <= i < all.len() implies (#[trigger] all[i]).1 is Str && is_pair(
            (all[i].0, all[i].1->Str_0),
        ) by {
            assert(all[i] == (p.0, v) || (i < before.len() && all[i] == before[i]));
        }
    }
}

proof fn lemma_pair_texts(e: Entries, n: int)
    requires
        0 <= n <= e.len(),
        is_env_table(e),
    ensures
        pair_texts(e, n).len() == n,
        forall|i: int|
            0 <= i < n ==> #[trigger] pair_texts(e, n)[i] == e[i].0 + "="@ + e[i].1->Str_0,
        forall|i: int| 0 <= i < n ==> is_item(#[trigger] pair_texts(e, n)[i]),
        env_pairs(pair_texts(e, n), n) == Ok::<Seq<(Seq<char>, Seq<char>)>, Seq<char>>(
            pairs_of(e).take(n),
        ),
    decreases n,
{
    if n > 0 {
        lemma_pair_texts(e, n - 1);
        let before = pair_texts(e, n - 1);
        let all = pair_texts(e, n);
        assert(e[n - 1].1 is Str);
        lemma_pair_text((e[n - 1].0, e[n - 1].1->Str_0));
        assert(all =~= before.push(e[n - 1].0 + "="@ + e[n - 1].1->Str_0));
        lemma_env_pairs_prefix(before, all, n - 1);
        assert(pairs_of(e).take(n) =~= pairs_of(e).take(n - 1).push(pairs_of(e)[n - 1]));
    } else {
        assert(pairs_of(e).take(0) =~= Seq::empty());
    }
}

proof fn lemma_env_pairs_prefix(a: Seq<Seq<char>>, b: Seq<Seq<char>>, n: int)
    requires
        0 <= n <= a.len() <= b.len(),
        forall|i: int| 0 <= i < n ==> #[trigger] a[i] == b[i],
    ensures
        env_pairs(a, n) == env_pairs(b, n),
    decreases n,
{
    if n > 0 {
        lemma_env_pairs_prefix(a, b, n - 1);
        assert(a[n - 1] == b[n - 1]);
    }
}

proof fn lemma_table_again(e: Entries, n: int)
    requires
        0 <= n <= e.len(),
        is_env_table(e),
    ensures
        pairs_table(pairs_of(e), n) == e.take(n),
    decreases n,
{
    if n > 0 {
        lemma_table_again(e, n - 1);
        let before = e.take(n - 1);
        let key = e[n - 1].0;
        assert(e[n - 1].1 is Str);
        toml::lemma_key_at(before, key);
        if toml::key_at(before, key) < before.len() {
            let i = toml::key_at(before, key);
            assert(before[i] == e[i]);
            assert(e[i].0 != e[n - 1].0);
        }
        assert(e.take(n) =~= before.push((key, TomlView::Str(e[n - 1].1->Str_0))));
    } else {
        assert(e.take(0) =~= Seq::empty());
    }
}

proof fn lemma_env_field(s: Seq<char>)
    requires
        env_of(s) is Ok,
    ensures
        ({
            let pairs = env_of(s)->Ok_0;
            let e = pairs_table(pairs, pairs.len() as int);
            let again = env_of(env_text(Some(TomlView::Inline(e))));
            &&& pairs.len() > 0 ==> again is Ok && again->Ok_0.len() > 0 && pairs_table(
                again->Ok_0,
                again->Ok_0.len() as int,
            ) == e
            &&& env_of(env_text(None)) == Ok::<Seq<(Seq<char>, Seq<char>)>, Seq<char>>(Seq::empty())
        }),
{
    let items = csv(s);
    lemma_csv_items(s);
    lemma_env_pairs(items, items.len() as int);
    let pairs = env_of(s)->Ok_0;
    lemma_pairs_table(pairs, pairs.len() as int);
    let e = pairs_table(pairs, pairs.len() as int);
    lemma_pair_texts(e, e.len() as int);
    let shown = pair_texts(e, e.len() as int);
    law_lists_read_back(shown);
    assert(pairs_of(e).take(e.len() as int) =~= pairs_of(e));
    lemma_table_again(e, e.len() as int);
    assert(e.take(e.len() as int) =~= e);
    law_lists_read_back(Seq::empty());
    assert(text::joined(Seq::empty(), ", "@) =~= Seq::<char>::empty());
}

proof fn lemma_file_field(s: Seq<char>, v: Option<TomlView>)
    requires
        v == toml::lookup(with_env_files(Seq::empty(), csv(s)), "env_file"@),
    ensures
        csv(env_file_text(v)) == csv(s),
{
    let files = csv(s);
    lemma_csv_items(s);
    lemma_csv_field(s);
    if files.len() == 1 {
        toml::lemma_lookup_put(
            Seq::empty(),
            "env_file"@,
            TomlView::Str(files[0]),
            "env_file"@,
        );
        law_lists_read_back(files);
        assert(text::joined(files, ", "@) == files[0]);
    } else if files.len() > 1 {
        toml::lemma_lookup_put(Seq::empty(), "env_file"@, strings(files), "env_file"@);
    } else {
        assert(files =~= Seq::empty());
    }
}

/// The keys of a task's table are different from each other.
pub proof fn lemma_keys_differ()
    ensures
        "run"@ != "delegate"@ && "run"@ != "dir"@ && "run"@ != "packages"@ && "run"@ != "deps"@
            && "run"@ != "args"@ && "run"@ != "parallel"@ && "run"@ != "env"@ && "run"@
            != "env_file"@,
        "delegate"@ != "dir"@ && "delegate"@ != "packages"@ && "delegate"@ != "deps"@
            && "delegate"@ != "args"@ && "delegate"@ != "parallel"@ && "delegate"@ != "env"@
            && "delegate"@ != "env_file"@,
        "dir"@ != "packages"@ && "dir"@ != "deps"@ && "dir"@ != "args"@ && "dir"@ != "parallel"@
            && "dir"@ != "env"@ && "dir"@ != "env_file"@,
        "packages"@ != "deps"@ && "packages"@ != "args"@ && "packages"@ != "parallel"@
            && "packages"@ != "env"@ && "packages"@ != "env_file"@,
        "deps"@ != "args"@ && "deps"@ != "parallel"@ && "deps"@ != "env"@ && "deps"@ != "env_file"@,
        "args"@ != "parallel"@ && "args"@ != "env"@ && "args"@ != "env_file"@,
        "parallel"@ != "env"@ && "parallel"@ != "env_file"@,
        "env"@ != "env_file"@,
        "bin"@ != "args"@,
{
    reveal_strlit("run");
    reveal_strlit("delegate");
    reveal_strlit("dir");
    reveal_strlit("packages");
    reveal_strlit("deps");
    reveal_strlit("args");
    reveal_strlit("parallel");
    reveal_strlit("env");
    reveal_strlit("env_file");
    reveal_strlit("bin");
    assert("run"@[0] == 'r' && "run"@.len() == 3);
    assert("dir"@[0] == 'd' && "dir"@.len() == 3);
    assert("env"@[0] == 'e' && "env"@.len() == 3);
    assert("bin"@.len() == 3);
    assert("deps"@[0] == 'd' && "deps"@.len() == 4);
    assert("args"@[0] == 'a' && "args"@.len() == 4);
    assert("delegate"@[0] == 'd' && "delegate"@.len() == 8);
    assert("packages"@[1] == 'a' && "packages"@[2] == 'c' && "packages"@[0] == 'p'
        && "packages"@.len() == 8);
    assert("parallel"@[2] == 'r' && "parallel"@[0] == 'p' && "parallel"@.len() == 8);
    assert("env_file"@[0] == 'e' && "env_file"@.len() == 8);
}

proof fn lemma_with_strings(e: Entries, key: Seq<char>, items: Seq<Seq<char>>, k: Seq<char>)
    ensures
        toml::lookup(with_strings(e, key, items), k) == if k == key && items.len() > 0 {
            Some(strings(items))
        } else {
            toml::lookup(e, k)
        },
{
    toml::lemma_lookup_put(e, key, strings(items), k);
}

proof fn lemma_with_location(form: FormView, e: Entries, k: Seq<char>)
    ensures
        k != "dir"@ && k != "packages"@ ==> toml::lookup(with_location(form, e), k)
            == toml::lookup(e, k),
        toml::lookup(e, "dir"@) is None ==> toml::lookup(with_location(form, e), "dir"@)
            == if form.location == 1 && text::trimmed(form.dir).len() > 0 {
            Some(TomlView::Str(text::trimmed(form.dir)))
        } else {
            None
        },
        toml::lookup(e, "packages"@) is None ==> toml::lookup(
            with_location(form, e),
            "packages"@,
        ) == if form.location == 2 && csv(form.packages).len() > 0 {
            Some(strings(csv(form.packages)))
        } else {
            None
        },
{
    lemma_keys_differ();
    let dir = TomlView::Str(text::trimmed(form.dir));
    toml::lemma_lookup_put(e, "dir"@, dir, k);
    toml::lemma_lookup_put(e, "dir"@, dir, "dir"@);
    toml::lemma_lookup_put(e, "dir"@, dir, "packages"@);
    lemma_with_strings(e, "packages"@, csv(form.packages), k);
    lemma_with_strings(e, "packages"@, csv(form.packages), "dir"@);
    lemma_with_strings(e, "packages"@, csv(form.packages), "packages"@);
}

proof fn lemma_kind_fields(form: FormView, k: Seq<char>)
    requires
        kind_fields(form) is Ok,
    ensures
        k != "run"@ && k != "delegate"@ ==> toml::lookup(kind_fields(form)->Ok_0, k) is None,
        toml::lookup(kind_fields(form)->Ok_0, "run"@) == if form.kind == 0 {
            Some(TomlView::Str(text::trimmed(form.run)))
        } else {
            None
        },
        toml::lookup(kind_fields(form)->Ok_0, "delegate"@) == if form.kind == 1 {
            Some(TomlView::Str(text::trimmed(form.bin)))
        } else if form.kind == 2 {
            Some(
                TomlView::Inline(
                    delegate_table(text::trimmed(form.bin), text::words(form.bin_args)),
                ),
            )
        } else {
            None
        },
{
    lemma_keys_differ();
    let none: Entries = Seq::empty();
    let run = TomlView::Str(text::trimmed(form.run));
    let bin = TomlView::Str(text::trimmed(form.bin));
    let table = TomlView::Inline(
        delegate_table(text::trimmed(form.bin), text::words(form.bin_args)),
    );
    toml::lemma_lookup_put(none, "run"@, run, k);
    toml::lemma_lookup_put(none, "run"@, run, "run"@);
    toml::lemma_lookup_put(none, "run"@, run, "delegate"@);
    toml::lemma_lookup_put(none, "delegate"@, bin, k);
    toml::lemma_lookup_put(none, "delegate"@, bin, "run"@);
    toml::lemma_lookup_put(none, "delegate"@, bin, "delegate"@);
    toml::lemma_lookup_put(none, "delegate"@, table, k);
    toml::lemma_lookup_put(none, "delegate"@, table, "run"@);
    toml::lemma_lookup_put(none, "delegate"@, table, "delegate"@);
}

// The fields of a form's task as they are put one after the other.
spec fn kind_stage(form: FormView) -> Entries {
    kind_fields(form)->Ok_0
}

spec fn args_stage(form: FormView) -> Entries {
    with_strings(
        with_strings(with_location(form, kind_stage(form)), "deps"@, csv(form.deps)),
        "args"@,
        text::words(form.args),
    )
}

spec fn parallel_stage(form: FormView) -> Entries {
    if form.parallel {
        toml::put(args_stage(form), "parallel"@, TomlView::Bool(true))
    } else {
        args_stage(form)
    }
}

spec fn env_stage(form: FormView) -> Entries {
    let pairs = env_of(form.env)->Ok_0;
    if pairs.len() == 0 {
        parallel_stage(form)
    } else {
        toml::put(
            parallel_stage(form),
            "env"@,
            TomlView::Inline(pairs_table(pairs, pairs.len() as int)),
        )
    }
}

proof fn lemma_stages(form: FormView)
    requires
        task_of(form) is Ok,
    ensures
        kind_fields(form) is Ok,
        env_of(form.env) is Ok,
        task_of(form)->Ok_0.1 == with_env_files(env_stage(form), csv(form.env_file)),
{
}

// A key that only the first fields can stand under.
proof fn lemma_lookup_early(form: FormView, k: Seq<char>)
    requires
        task_of(form) is Ok,
        k == "run"@ || k == "delegate"@ || k == "dir"@ || k == "packages"@,
    ensures
        toml::lookup(task_of(form)->Ok_0.1, k) == toml::lookup(
            with_location(form, kind_stage(form)),
            k,
        ),
{
    lemma_stages(form);
    lemma_keys_differ();
    let located = with_location(form, kind_stage(form));
    let deps = with_strings(located, "deps"@, csv(form.deps));
    lemma_with_strings(located, "deps"@, csv(form.deps), k);
    lemma_with_strings(deps, "args"@, text::words(form.args), k);
    toml::lemma_lookup_put(args_stage(form), "parallel"@, TomlView::Bool(true), k);
    let pairs = env_of(form.env)->Ok_0;
    let table = TomlView::Inline(pairs_table(pairs, pairs.len() as int));
    toml::lemma_lookup_put(parallel_stage(form), "env"@, table, k);
    lemma_lookup_files(form, k);
}

proof fn lemma_lookup_files(form: FormView, k: Seq<char>)
    requires
        task_of(form) is Ok,
    ensures
        k != "env_file"@ ==> toml::lookup(task_of(form)->Ok_0.1, k) == toml::lookup(
            env_stage(form),
            k,
        ),
        toml::lookup(env_stage(form), "env_file"@) is None ==> toml::lookup(
            task_of(form)->Ok_0.1,
            "env_file"@,
        ) == toml::lookup(with_env_files(Seq::empty(), csv(form.env_file)), "env_file"@),
{
    lemma_stages(form);
    let files = csv(form.env_file);
    let none: Entries = Seq::empty();
    let e = env_stage(form);
    if files.len() == 1 {
        let v = TomlView::Str(files[0]);
        toml::lemma_lookup_put(e, "env_file"@, v, k);
        toml::lemma_lookup_put(e, "env_file"@, v, "env_file"@);
        toml::lemma_lookup_put(none, "env_file"@, v, "env_file"@);
    } else {
        lemma_with_strings(e, "env_file"@, files, k);
        lemma_with_strings(e, "env_file"@, files, "env_file"@);
        lemma_with_strings(none, "env_file"@, files, "env_file"@);
    }
}

// The keys that the later fields stand under.
proof fn lemma_lookup_late(form: FormView)
    requires
        task_of(form) is Ok,
    ensures
        ({
            let e = task_of(form)->Ok_0.1;
            let pairs = env_of(form.env)->Ok_0;
            &&& toml::lookup(e, "deps"@) == if csv(form.deps).len() > 0 {
                Some(strings(csv(form.deps)))
            } else {
                None
            }
            &&& toml::lookup(e, "args"@) == if text::words(form.args).len() > 0 {
                Some(strings(text::words(form.args)))
            } else {
                None
            }
            &&& toml::lookup(e, "parallel"@) == if form.parallel {
                Some(TomlView::Bool(true))
            } else {
                None
            }
            &&& toml::lookup(e, "env"@) == if pairs.len() > 0 {
                Some(TomlView::Inline(pairs_table(pairs, pairs.len() as int)))
            } else {
                None
            }
            &&& toml::lookup(e, "env_file"@) == toml::lookup(
                with_env_files(Seq::empty(), csv(form.env_file)),
                "env_file"@,
            )
        }),
{
    lemma_stages(form);
    lemma_keys_differ();
    let pairs = env_of(form.env)->Ok_0;
    let table = TomlView::Inline(pairs_table(pairs, pairs.len() as int));
    let located = with_location(form, kind_stage(form));
    let deps = with_strings(located, "deps"@, csv(form.deps));
    let keys = seq!["deps"@, "args"@, "parallel"@, "env"@, "env_file"@];
    assert forall|i: int| 0 <= i < 5 implies {
        let k = #[trigger] keys[i];
        &&& toml::lookup(located, k) is None
        &&& toml::lookup(deps, k) == if k == "deps"@ && csv(form.deps).len() > 0 {
            Some(strings(csv(form.deps)))
        } else {
            None
        }
        &&& toml::lookup(args_stage(form), k) == if k == "args"@ && text::words(form.args).len() > 0 {
            Some(strings(text::words(form.args)))
        } else {
            toml::lookup(deps, k)
        }
        &&& toml::lookup(parallel_stage(form), k) == if k == "parallel"@ && form.parallel {
            Some(TomlView::Bool(true))
        } else {
            toml::lookup(args_stage(form), k)
        }
        &&& toml::lookup(env_stage(form), k) == if k == "env"@ && pairs.len() > 0 {
            Some(table)
        } else {
            toml::lookup(parallel_stage(form), k)
        }
    } by {
        let k = keys[i];
        lemma_kind_fields(form, k);
        lemma_with_location(form, kind_stage(form), k);
        lemma_with_strings(located, "deps"@, csv(form.deps), k);
        lemma_with_strings(deps, "args"@, text::words(form.args), k);
        toml::lemma_lookup_put(args_stage(form), "parallel"@, TomlView::Bool(true), k);
        toml::lemma_lookup_put(parallel_stage(form), "env"@, table, k);
    }
    assert(keys[0] == "deps"@ && keys[1] == "args"@ && keys[2] == "parallel"@ && keys[3] == "env"@
        && keys[4] == "env_file"@);
    lemma_lookup_files(form, "deps"@);
    lemma_lookup_files(form, "args"@);
    lemma_lookup_files(form, "parallel"@);
    lemma_lookup_files(form, "env"@);
    lemma_lookup_files(form, "env_file"@);
}

/// Whether a table has a key as a form has it, or as it was where the form shows it
/// as it was.
pub open spec fn is_as_saved(
    t: Entries,
    fields: Entries,
    was: Option<Entries>,
    shown: Option<Entries>,
    key: Seq<char>,
) -> bool {
    ||| toml::lookup(t, key) == toml::lookup(fields, key)
    ||| {
        &&& was is Some && shown is Some
        &&& toml::lookup(fields, key) is Some
        &&& toml::lookup(t, key) == toml::lookup(was->0, key)
        &&& toml::lookup(shown->0, key) == toml::lookup(fields, key)
    }
}

/// The fields that the form for a task shows.
pub open spec fn shown_fields(doc: Entries, key: Seq<char>) -> Option<Entries> {
    match task_of(form_of(doc, key)) {
        Ok((_, fields)) => Some(fields),
        Err(_) => None,
    }
}

proof fn lemma_strings_injective(a: Seq<Seq<char>>, b: Seq<Seq<char>>)
    requires
        strings(a) == strings(b),
    ensures
        a == b,
{
    let x = strings(a)->Array_0;
    let y = strings(b)->Array_0;
    assert(x.len() == y.len());
    assert forall|i: int| 0 <= i < a.len() implies a[i] == b[i] by {
        assert(x[i] == TomlView::Str(a[i]));
        assert(y[i] == TomlView::Str(b[i]));
    }
    assert(a =~= b);
}

// What is kept of a task that a form shows as it was: the form that it was shown
// in, and its fields.
spec fn is_shown_in(then: FormView, was: Option<Entries>, shown: Option<Entries>) -> bool {
    was is Some && shown is Some ==> {
        let start = FormView { original: then.original, name: then.name, ..blank() };
        let read = with_location_of(with_kind_of(start, was->0), was->0);
        &&& task_of(then) matches Ok(t) && t.1 == shown->0
        &&& then.kind == read.kind
        &&& then.run == read.run
        &&& then.bin == read.bin
        &&& then.bin_args == read.bin_args
        &&& then.location == read.location
        &&& then.dir == read.dir
        &&& then.packages == read.packages
        &&& then.deps == csv_text(toml::lookup(was->0, "deps"@))
        &&& then.args == ws_text(toml::lookup(was->0, "args"@))
        &&& then.parallel == (toml::lookup(was->0, "parallel"@) == Some(TomlView::Bool(true)))
        &&& then.env == env_text(toml::lookup(was->0, "env"@))
        &&& then.env_file == env_file_text(toml::lookup(was->0, "env_file"@))
    }
}

proof fn lemma_shown_in(doc: Entries, key: Seq<char>)
    ensures
        is_shown_in(form_of(doc, key), task_table(doc, key), shown_fields(doc, key)),
{
}

// The fields of what a form runs and where, under their keys.
proof fn lemma_lookup_kind(form: FormView)
    requires
        task_of(form) is Ok,
    ensures
        ({
            let e = task_of(form)->Ok_0.1;
            &&& kind_fields(form) is Ok
            &&& toml::lookup(e, "run"@) == if form.kind == 0 {
                Some(TomlView::Str(text::trimmed(form.run)))
            } else {
                None
            }
            &&& toml::lookup(e, "delegate"@) == if form.kind == 1 {
                Some(TomlView::Str(text::trimmed(form.bin)))
            } else if form.kind == 2 {
                Some(
                    TomlView::Inline(
                        delegate_table(text::trimmed(form.bin), text::words(form.bin_args)),
                    ),
                )
            } else {
                None
            }
            &&& toml::lookup(e, "dir"@) == if form.location == 1 && text::trimmed(form.dir).len() > 0 {
                Some(TomlView::Str(text::trimmed(form.dir)))
            } else {
                None
            }
            &&& toml::lookup(e, "packages"@) == if form.location == 2 && csv(form.packages).len() > 0 {
                Some(strings(csv(form.packages)))
            } else {
                None
            }
        }),
{
    lemma_stages(form);
    lemma_keys_differ();
    lemma_lookup_early(form, "run"@);
    lemma_lookup_early(form, "delegate"@);
    lemma_lookup_early(form, "dir"@);
    lemma_lookup_early(form, "packages"@);
    lemma_kind_fields(form, "run"@);
    lemma_kind_fields(form, "dir"@);
    lemma_kind_fields(form, "packages"@);
    lemma_with_location(form, kind_stage(form), "run"@);
    lemma_with_location(form, kind_stage(form), "delegate"@);
}

proof fn lemma_delegate_reads_back(bin: Seq<char>, args: Seq<char>)
    ensures
        ({
            let table = delegate_table(text::trimmed(bin), text::words(args));
            &&& toml::lookup(table, "bin"@) == Some(TomlView::Str(text::trimmed(bin)))
            &&& text::words(ws_text(toml::lookup(table, "args"@))) == text::words(args)
        }),
{
    lemma_keys_differ();
    let b = text::trimmed(bin);
    let a = text::words(args);
    let none: Entries = Seq::empty();
    let one = toml::put(none, "bin"@, TomlView::Str(b));
    toml::lemma_lookup_put(none, "bin"@, TomlView::Str(b), "bin"@);
    toml::lemma_lookup_put(none, "bin"@, TomlView::Str(b), "args"@);
    toml::lemma_lookup_put(one, "args"@, strings(a), "bin"@);
    toml::lemma_lookup_put(one, "args"@, strings(a), "args"@);
    lemma_ws_field(args);
    if a.len() == 0 {
        assert(a =~= Seq::empty());
    }
}

proof fn lemma_kind_reads_back(
    form: FormView,
    back: FormView,
    t: Entries,
    was: Option<Entries>,
    shown: Option<Entries>,
    then: FormView,
)
    requires
        task_of(form) is Ok,
        is_shown_in(then, was, shown),
        is_as_saved(t, task_of(form)->Ok_0.1, was, shown, "run"@),
        is_as_saved(t, task_of(form)->Ok_0.1, was, shown, "delegate"@),
        ({
            let start = FormView { original: back.original, name: back.name, ..blank() };
            let read = with_location_of(with_kind_of(start, t), t);
            &&& back.kind == read.kind
            &&& back.run == read.run
            &&& back.bin == read.bin
            &&& back.bin_args == read.bin_args
        }),
    ensures
        kind_fields(back) == kind_fields(form),
{
    let e = task_of(form)->Ok_0.1;
    lemma_lookup_kind(form);
    lemma_keys_differ();
    text::lemma_trimmed(form.run, ' ');
    text::lemma_trimmed(text::trimmed(form.run), ' ');
    text::lemma_trimmed(form.bin, ' ');
    text::lemma_trimmed(text::trimmed(form.bin), ' ');
    lemma_delegate_reads_back(form.bin, form.bin_args);
    if was is Some && shown is Some {
        lemma_lookup_kind(then);
    }
    if form.kind == 0 {
        assert(toml::lookup(t, "delegate"@) is None);
    } else if form.kind == 1 || form.kind == 2 {
        assert(toml::lookup(t, "run"@) is None);
    } else {
        assert(toml::lookup(t, "run"@) is None);
        assert(toml::lookup(t, "delegate"@) is None);
    }
}

proof fn lemma_location_reads_back(
    form: FormView,
    back: FormView,
    t: Entries,
    was: Option<Entries>,
    shown: Option<Entries>,
    then: FormView,
    e: Entries,
)
    requires
        task_of(form) is Ok,
        is_shown_in(then, was, shown),
        is_as_saved(t, task_of(form)->Ok_0.1, was, shown, "dir"@),
        is_as_saved(t, task_of(form)->Ok_0.1, was, shown, "packages"@),
        ({
            let start = FormView { original: back.original, name: back.name, ..blank() };
            let read = with_location_of(with_kind_of(start, t), t);
            &&& back.location == read.location
            &&& back.dir == read.dir
            &&& back.packages == read.packages
        }),
    ensures
        with_location(back, e) == with_location(form, e),
{
    lemma_lookup_kind(form);
    text::lemma_trimmed(form.dir, ' ');
    text::lemma_trimmed(text::trimmed(form.dir), ' ');
    lemma_csv_field(form.packages);
    if was is Some && shown is Some {
        lemma_lookup_kind(then);
        if toml::lookup(shown->0, "packages"@) == toml::lookup(
            task_of(form)->Ok_0.1,
            "packages"@,
        ) && toml::lookup(shown->0, "packages"@) is Some {
            lemma_strings_injective(csv(then.packages), csv(form.packages));
        }
    }
}

// The later fields of a form are read back from a table that has them as saved.
proof fn lemma_rest_reads_back(
    form: FormView,
    back: FormView,
    t: Entries,
    was: Option<Entries>,
    shown: Option<Entries>,
    then: FormView,
)
    requires
        task_of(form) is Ok,
        is_shown_in(then, was, shown),
        is_as_saved(t, task_of(form)->Ok_0.1, was, shown, "deps"@),
        is_as_saved(t, task_of(form)->Ok_0.1, was, shown, "args"@),
        is_as_saved(t, task_of(form)->Ok_0.1, was, shown, "parallel"@),
        is_as_saved(t, task_of(form)->Ok_0.1, was, shown, "env"@),
        is_as_saved(t, task_of(form)->Ok_0.1, was, shown, "env_file"@),
        back.deps == csv_text(toml::lookup(t, "deps"@)),
        back.args == ws_text(toml::lookup(t, "args"@)),
        back.parallel == (toml::lookup(t, "parallel"@) == Some(TomlView::Bool(true))),
        back.env == env_text(toml::lookup(t, "env"@)),
        back.env_file == env_file_text(toml::lookup(t, "env_file"@)),
    ensures
        csv(back.deps) == csv(form.deps),
        text::words(back.args) == text::words(form.args),
        back.parallel == form.parallel,
        env_of(back.env) is Ok,
        ({
            let pairs = env_of(form.env)->Ok_0;
            let again = env_of(back.env)->Ok_0;
            &&& again.len() == 0 <==> pairs.len() == 0
            &&& pairs.len() > 0 ==> pairs_table(again, again.len() as int) == pairs_table(
                pairs,
                pairs.len() as int,
            )
        }),
        csv(back.env_file) == csv(form.env_file),
{
    let e = task_of(form)->Ok_0.1;
    lemma_stages(form);
    lemma_lookup_late(form);
    lemma_csv_field(form.deps);
    lemma_ws_field(form.args);
    lemma_env_field(form.env);
    lemma_file_field(form.env_file, toml::lookup(e, "env_file"@));
    if csv(form.deps).len() == 0 {
        assert(csv(form.deps) =~= Seq::empty());
    }
    if text::words(form.args).len() == 0 {
        assert(text::words(form.args) =~= Seq::empty());
    }
    if was is Some && shown is Some {
        let s = shown->0;
        lemma_stages(then);
        lemma_lookup_late(then);
        if toml::lookup(s, "deps"@) == toml::lookup(e, "deps"@) && toml::lookup(s, "deps"@) is Some {
            lemma_strings_injective(csv(then.deps), csv(form.deps));
        }
        if toml::lookup(s, "args"@) == toml::lookup(e, "args"@) && toml::lookup(s, "args"@) is Some {
            lemma_strings_injective(text::words(then.args), text::words(form.args));
        }
        if toml::lookup(s, "env_file"@) == toml::lookup(e, "env_file"@) {
            lemma_files_alike(csv(then.env_file), csv(form.env_file));
        }
    }
}

proof fn lemma_files_alike(a: Seq<Seq<char>>, b: Seq<Seq<char>>)
    requires
        toml::lookup(with_env_files(Seq::empty(), a), "env_file"@) == toml::lookup(
            with_env_files(Seq::empty(), b),
            "env_file"@,
        ),
    ensures
        a == b,
{
    lemma_file_value(a);
    lemma_file_value(b);
    if a.len() == 1 {
        assert(a =~= b);
    } else if a.len() > 1 {
        lemma_strings_injective(a, b);
    } else {
        assert(a =~= b);
    }
}

proof fn lemma_file_value(files: Seq<Seq<char>>)
    ensures
        toml::lookup(with_env_files(Seq::empty(), files), "env_file"@) == if files.len() == 1 {
            Some(TomlView::Str(files[0]))
        } else if files.len() > 1 {
            Some(strings(files))
        } else {
            None
        },
{
    let none: Entries = Seq::empty();
    if files.len() == 1 {
        toml::lemma_lookup_put(none, "env_file"@, TomlView::Str(files[0]), "env_file"@);
    } else {
        lemma_with_strings(none, "env_file"@, files, "env_file"@);
    }
}

/// A task that was saved from a form is read back as it was saved: the form that
/// it opens in describes the very same task. Of a task that was edited, what the
/// form showed as it was may stay as it was written.
pub proof fn law_saved_tasks_read_back(
    form: FormView,
    doc: Entries,
    before: Entries,
    original: Seq<char>,
)
    requires
        task_of(form) is Ok,
        task_table(doc, task_of(form)->Ok_0.0) matches Some(t) && forall|i: int|
            0 <= i < FORM_KEYS ==> is_as_saved(
                t,
                task_of(form)->Ok_0.1,
                task_table(before, original),
                shown_fields(before, original),
                #[trigger] form_key(i),
            ),
    ensures
        task_of(form_of(doc, task_of(form)->Ok_0.0)) == task_of(form),
{
    let (name, e) = task_of(form)->Ok_0;
    let t = task_table(doc, name)->0;
    let back = form_of(doc, name);
    let then = form_of(before, original);
    let was = task_table(before, original);
    let shown = shown_fields(before, original);
    lemma_shown_in(before, original);
    assert(is_as_saved(t, e, was, shown, form_key(0)));
    assert(is_as_saved(t, e, was, shown, form_key(1)));
    assert(is_as_saved(t, e, was, shown, form_key(2)));
    assert(is_as_saved(t, e, was, shown, form_key(3)));
    assert(is_as_saved(t, e, was, shown, form_key(4)));
    assert(is_as_saved(t, e, was, shown, form_key(5)));
    assert(is_as_saved(t, e, was, shown, form_key(6)));
    assert(is_as_saved(t, e, was, shown, form_key(7)));
    assert(is_as_saved(t, e, was, shown, form_key(8)));
    lemma_stages(form);
    text::lemma_trimmed(form.name, ' ');
    text::lemma_trimmed(name, ' ');
    lemma_kind_reads_back(form, back, t, was, shown, then);
    lemma_location_reads_back(form, back, t, was, shown, then, kind_stage(form));
    lemma_rest_reads_back(form, back, t, was, shown, then);
    assert(args_stage(back) == args_stage(form));
    assert(parallel_stage(back) == parallel_stage(form));
    assert(env_stage(back) == env_stage(form));
}

proof fn lemma_items_are_filtered(pieces: Seq<Seq<char>>, n: int)
    requires
        0 <= n <= pieces.len(),
    ensures
        items_of(pieces, n) == pieces.take(n).map_values(|x: Seq<char>| text::trimmed(x)).filter(
            |x: Seq<char>| x.len() > 0,
        ),
    decreases n,
{
    reveal(Seq::filter);
    let f = |x: Seq<char>| text::trimmed(x);
    let all = pieces.take(n).map_values(f);
    if n > 0 {
        lemma_items_are_filtered(pieces, n - 1);
        assert(all.drop_last() =~= pieces.take(n - 1).map_values(f));
        assert(all.last() == text::trimmed(pieces[n - 1]));
    } else {
        assert(all.len() == 0);
    }
}

/// A comma-separated list is what stands between the commas, without the white space
/// around each item and without the empty ones, in its order.
pub proof fn law_lists(s: Seq<char>)
    ensures
        csv(s) == text::split(s, ',').map_values(|x: Seq<char>| text::trimmed(x)).filter(
            |x: Seq<char>| x.len() > 0,
        ),
{
    let pieces = text::split(s, ',');
    lemma_items_are_filtered(pieces, pieces.len() as int);
    assert(pieces.take(pieces.len() as int) =~= pieces);
}

/// An entry of the environment is a key, the first `=` and a value, which may hold any
/// more; white space around either does not count. Without a `=`, or without a key, it is
/// an error that shows the entry.
pub proof fn law_env_entries(key: Seq<char>, value: Seq<char>, p: Seq<char>)
    requires
        !key.contains('='),
    ensures
        text::trimmed(key).len() > 0 ==> env_entry(key + seq!['='] + value) == Ok::<
            (Seq<char>, Seq<char>),
            Seq<char>,
        >((text::trimmed(key), text::trimmed(value))),
        text::trimmed(key).len() == 0 ==> env_entry(key + seq!['='] + value) == Err::<
            (Seq<char>, Seq<char>),
            Seq<char>,
        >("env entry '"@ + (key + seq!['='] + value) + "' has an empty key"@),
        !p.contains('=') ==> env_entry(p) == Err::<(Seq<char>, Seq<char>), Seq<char>>(
            "env entry '"@ + p + "' must be KEY=VALUE"@,
        ),
{
    let s = key + seq!['='] + value;
    let n = key.len() as int;
    assert(s[n] == '=');
    text::lemma_index_from(s, '=', 0);
    let at = text::index_from(s, '=', 0);
    if at < n {
        assert(s[at] == key[at]);
        assert(key.contains('='));
    }
    assert(at == n);
    assert(s.take(n) =~= key);
    assert(s.skip(n + 1) =~= value);
    text::lemma_index_from(p, '=', 0);
    if text::index_from(p, '=', 0) < p.len() {
        assert(p.contains('='));
    }
}

proof fn lemma_env_pairs_each(items: Seq<Seq<char>>, n: int)
    requires
        0 <= n <= items.len(),
    ensures
        env_pairs(items, n) is Ok <==> forall|i: int|
            0 <= i < n ==> env_entry(#[trigger] items[i]) is Ok,
        env_pairs(items, n) matches Ok(pairs) ==> pairs.len() == n && forall|i: int|
            0 <= i < n ==> env_entry(#[trigger] items[i]) == Ok::<
                (Seq<char>, Seq<char>),
                Seq<char>,
            >(pairs[i]),
    decreases n,
{
    if n > 0 {
        lemma_env_pairs_each(items, n - 1);
        if let Ok(pairs) = env_pairs(items, n) {
            let front = env_pairs(items, n - 1)->Ok_0;
            assert forall|i: int| 0 <= i < n implies env_entry(#[trigger] items[i]) == Ok::<
                (Seq<char>, Seq<char>),
                Seq<char>,
            >(pairs[i]) by {
                if i < n - 1 {
                    assert(pairs[i] == front[i]);
                }
            }
        }
        if forall|i: int| 0 <= i < n ==> env_entry(#[trigger] items[i]) is Ok {
            assert(env_entry(items[n - 1]) is Ok);
        }
    }
}

/// The environment of a form is one pair for each item of its list, in their order, and
/// is refused if one of them is.
pub proof fn law_env_lists(s: Seq<char>, i: int)
    ensures
        env_of(s) is Ok <==> forall|k: int|
            0 <= k < csv(s).len() ==> env_entry(#[trigger] csv(s)[k]) is Ok,
        env_of(s) matches Ok(pairs) ==> pairs.len() == csv(s).len() && (0 <= i < pairs.len()
            ==> env_entry(csv(s)[i]) == Ok::<(Seq<char>, Seq<char>), Seq<char>>(pairs[i])),
{
    lemma_env_pairs_each(csv(s), csv(s).len() as int);
    if 0 <= i < csv(s).len() {
        let item = csv(s)[i];
    }
}

/// A form is a task exactly if it has a legal name, a command where it is to run one, a
/// backend where it is to hand itself on, and an environment that can be read.
pub proof fn law_which_forms_are_tasks(form: FormView)
    ensures
        task_of(form) is Ok <==> {
            &&& text::trimmed(form.name).len() > 0
            &&& config::key_error(text::trimmed(form.name)) is None
            &&& form.kind == 0 ==> text::trimmed(form.run).len() > 0
            &&& form.kind == 1 || form.kind == 2 ==> text::trimmed(form.bin).len() > 0
            &&& env_of(form.env) is Ok
        },
        text::trimmed(form.name).len() == 0 ==> task_of(form) == Err::<
            (Seq<char>, Entries),
            Seq<char>,
        >("name is required"@),
        task_of(form) matches Ok((name, _)) ==> name == text::trimmed(form.name),
{
}

/// The table of a form says what is filled in, without the white space around it, and
/// nothing of what is empty or does not apply.
pub proof fn law_what_a_form_says(form: FormView)
    requires
        task_of(form) is Ok,
    ensures
        ({
            let e = task_of(form)->Ok_0.1;
            let pairs = env_of(form.env)->Ok_0;
            let files = csv(form.env_file);
            &&& toml::lookup(e, "run"@) == if form.kind == 0 {
                Some(TomlView::Str(text::trimmed(form.run)))
            } else {
                None
            }
            &&& toml::lookup(e, "delegate"@) is Some <==> form.kind == 1 || form.kind == 2
            &&& form.kind == 1 ==> toml::lookup(e, "delegate"@) == Some(
                TomlView::Str(text::trimmed(form.bin)),
            )
            &&& form.kind == 2 ==> config::delegates(
                toml::lookup(e, "delegate"@)->0,
                config::DelegateView::Full {
                    bin: text::trimmed(form.bin),
                    args: text::words(form.bin_args),
                },
            )
            &&& toml::lookup(e, "dir"@) == if form.location == 1 && text::trimmed(form.dir).len()
                > 0 {
                Some(TomlView::Str(text::trimmed(form.dir)))
            } else {
                None
            }
            &&& toml::lookup(e, "packages"@) is Some <==> form.location == 2 && csv(
                form.packages,
            ).len() > 0
            &&& toml::lookup(e, "packages"@) is Some ==> config::lists(
                toml::lookup(e, "packages"@)->0,
                csv(form.packages),
            )
            &&& toml::lookup(e, "deps"@) is Some <==> csv(form.deps).len() > 0
            &&& toml::lookup(e, "deps"@) is Some ==> config::lists(
                toml::lookup(e, "deps"@)->0,
                csv(form.deps),
            )
            &&& toml::lookup(e, "args"@) is Some <==> text::words(form.args).len() > 0
            &&& toml::lookup(e, "args"@) is Some ==> config::lists(
                toml::lookup(e, "args"@)->0,
                text::words(form.args),
            )
            &&& toml::lookup(e, "parallel"@) == if form.parallel {
                Some(TomlView::Bool(true))
            } else {
                None
            }
            &&& toml::lookup(e, "env"@) is Some <==> pairs.len() > 0
            &&& files.len() == 0 ==> toml::lookup(e, "env_file"@) is None
            &&& files.len() == 1 ==> toml::lookup(e, "env_file"@) == Some(TomlView::Str(files[0]))
            &&& files.len() > 1 ==> toml::lookup(e, "env_file"@) is Some && config::lists(
                toml::lookup(e, "env_file"@)->0,
                files,
            )
        }),
{
    lemma_stages(form);
    lemma_lookup_late(form);
    lemma_keys_differ();
    lemma_lookup_early(form, "run"@);
    lemma_lookup_early(form, "delegate"@);
    lemma_lookup_early(form, "dir"@);
    lemma_lookup_early(form, "packages"@);
    lemma_with_location(form, kind_stage(form), "run"@);
    lemma_with_location(form, kind_stage(form), "delegate"@);
    lemma_kind_fields(form, "dir"@);
    lemma_kind_fields(form, "packages"@);
    lemma_file_value(csv(form.env_file));
    let bin = text::trimmed(form.bin);
    let args = text::words(form.bin_args);
    let b = toml::put(Seq::empty(), "bin"@, TomlView::Str(bin));
    let none: Entries = Seq::empty();
    toml::lemma_lookup_put(none, "bin"@, TomlView::Str(bin), "bin"@);
    toml::lemma_lookup_put(none, "bin"@, TomlView::Str(bin), "args"@);
    toml::lemma_lookup_put(b, "args"@, strings(args), "bin"@);
    toml::lemma_lookup_put(b, "args"@, strings(args), "args"@);
}

/// The pairs of an environment stand in its table under their keys; where a key is given
/// twice the last value counts.
pub proof fn law_env_tables(pairs: Seq<(Seq<char>, Seq<char>)>, i: int, n: int)
    requires
        0 <= i < n <= pairs.len(),
        forall|j: int| i < j < n ==> (#[trigger] pairs[j]).0 != pairs[i].0,
    ensures
        toml::lookup(pairs_table(pairs, n), pairs[i].0) == Some(TomlView::Str(pairs[i].1)),
    decreases n,
{
    toml::lemma_lookup_put(
        pairs_table(pairs, n - 1),
        pairs[n - 1].0,
        TomlView::Str(pairs[n - 1].1),
        pairs[i].0,
    );
    if i < n - 1 {
        assert(pairs[n - 1].0 != pairs[i].0);
        law_env_tables(pairs, i, n - 1);
    }
}

/// What is written in a field is what the field holds then, and no other field changes.
pub proof fn law_fields_are_written(form: FormView, f: Field, g: Field, v: Seq<char>)
    ensures
        f != Field::Kind && f != Field::Location && f != Field::Parallel ==> text_of(
            with_text(form, f, v),
            f,
        ) == v,
        f != g ==> text_of(with_text(form, f, v), g) == text_of(form, g),
        with_text(form, f, v).kind == form.kind,
        with_text(form, f, v).location == form.location,
        with_text(form, f, v).parallel == form.parallel,
        with_text(form, f, v).focus == form.focus,
        with_text(form, f, v).original == form.original,
{
}

/// A choice goes round: one step on and one step back come to the same, and every step
/// stays among the choices.
pub proof fn law_choices_go_round(i: int, n: int)
    requires
        0 <= i < n,
    ensures
        0 <= option_after(i, n) < n,
        0 <= option_before(i, n) < n,
        option_before(option_after(i, n), n) == i,
        option_after(option_before(i, n), n) == i,
        i + 1 < n ==> option_after(i, n) == i + 1,
{
}

/// Changing a field turns the switch, or takes the next or the one before of its
/// choices; it changes no text.
pub proof fn law_changes(form: FormView, f: Field)
    requires
        0 <= form.kind < 4,
        0 <= form.location < 3,
    ensures
        ({
            let on = adjusted(form, true);
            let back = adjusted(form, false);
            &&& text_of(on, f) == text_of(form, f) && text_of(back, f) == text_of(form, f)
            &&& on.parallel == (if form.focus == Field::Parallel {
                !form.parallel
            } else {
                form.parallel
            })
            &&& back.parallel == on.parallel
            &&& form.focus == Field::Kind && form.kind < 3 ==> on.kind == form.kind + 1
            &&& form.focus == Field::Kind && form.kind == 3 ==> on.kind == 0
            &&& form.focus != Field::Kind ==> on.kind == form.kind && back.kind == form.kind
            &&& form.focus == Field::Location && form.location < 2 ==> on.location == form.location
                + 1
            &&& form.focus == Field::Location && form.location == 2 ==> on.location == 0
            &&& form.focus != Field::Location ==> on.location == form.location && back.location
                == form.location
            &&& adjusted(on, false).kind == form.kind
            &&& adjusted(on, false).location == form.location
        }),
{
}

/// Which fields a form has: a command where the task runs one, a backend where it is
/// handed on, arguments of the backend where they are written out, a directory or
/// packages by where it runs, and all the others always.
pub proof fn law_which_fields_apply(form: FormView, f: Field)
    ensures
        applies(form, Field::Run) <==> form.kind == 0,
        applies(form, Field::Bin) <==> form.kind == 1 || form.kind == 2,
        applies(form, Field::BinArgs) <==> form.kind == 2,
        applies(form, Field::Dir) <==> form.location == 1,
        applies(form, Field::Packages) <==> form.location == 2,
        f != Field::Run && f != Field::Bin && f != Field::BinArgs && f != Field::Dir && f
            != Field::Packages ==> applies(form, f),
{
}

/// The focus goes to the next field that applies, in the order of the form, and from the
/// last one to the first.
pub proof fn law_the_focus_goes_on(form: FormView, f: Field)
    ensures
        ({
            let next = next_field(form, f, FIELDS as nat);
            &&& index_of(next) > index_of(f) ==> forall|i: int|
                index_of(f) < i < index_of(next) ==> !applies(form, #[trigger] field_at(i))
            &&& index_of(next) <= index_of(f) ==> next == Field::Name && forall|i: int|
                index_of(f) < i < 13 ==> !applies(form, #[trigger] field_at(i))
        }),
        field_at(index_of(f)) == f,
{
    lemma_goes_on(form, f, FIELDS as nat);
}

proof fn lemma_goes_on(form: FormView, f: Field, steps: nat)
    requires
        steps >= 13 - index_of(f),
    ensures
        ({
            let next = next_field(form, f, steps);
            &&& index_of(next) > index_of(f) ==> forall|i: int|
                index_of(f) < i < index_of(next) ==> !applies(form, #[trigger] field_at(i))
            &&& index_of(next) <= index_of(f) ==> next == Field::Name && forall|i: int|
                index_of(f) < i < 13 ==> !applies(form, #[trigger] field_at(i))
        }),
    decreases steps,
{
    let after = field_after(f);
    if !applies(form, after) {
        assert(f != Field::EnvFile);
        assert(index_of(after) == index_of(f) + 1);
        lemma_goes_on(form, after, (steps - 1) as nat);
        assert(field_at(index_of(f) + 1) == after);
    }
}

} // verus!
