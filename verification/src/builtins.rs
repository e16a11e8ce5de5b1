//! The commands that the runner has itself, so that a `run` string means the
//! same on every platform.
//!
//! Relative operands are seen from the job's directory, not from the process's:
//! parallel jobs share the process. What is done to the file system is the
//! caller's part; the functions here say what that is, and what a result means.

use vstd::prelude::*;

use crate::path;
use crate::text;

verus! {

/// The exit code for a wrong use: a bad flag, a missing operand.
pub const USAGE: i32 = 2;

/// The exit code for an operation that failed.
pub const FAIL: i32 = 1;

/// The names of the builtins.
pub open spec fn builtin_names() -> Seq<Seq<char>> {
    seq![
        "cat"@,
        "cp"@,
        "echo"@,
        "false"@,
        "mkdir"@,
        "mv"@,
        "pwd"@,
        "rm"@,
        "touch"@,
        "true"@,
    ]
}

/// The names of the builtins.
pub fn names() -> (r: Vec<String>)
    ensures
        text::texts(r@) == builtin_names(),
{
    let mut v: Vec<String> = Vec::new();
    v.push("cat".to_string());
    v.push("cp".to_string());
    v.push("echo".to_string());
    v.push("false".to_string());
    v.push("mkdir".to_string());
    v.push("mv".to_string());
    v.push("pwd".to_string());
    v.push("rm".to_string());
    v.push("touch".to_string());
    v.push("true".to_string());
    assert(text::texts(v@) =~= builtin_names());
    v
}

/// Whether a command is a builtin. A builtin comes before a program of the same
/// name.
pub fn is_builtin(name: &str) -> (r: bool)
    ensures
        r == builtin_names().contains(name@),
{
    let all = names();
    text::member(&all, name)
}

// ---------------------------------------------------------------------------
// Options
// ---------------------------------------------------------------------------
/// The options that are set.
#[derive(Debug, Clone, Copy, PartialEq, Eq, Structural)]
pub struct Options {
    /// `-r`, `-R`, `--recursive`.
    pub recursive: bool,
    /// `-f`, `--force`.
    pub force: bool,
    /// `-p`, `--parents`.
    pub parents: bool,
}

/// No option.
pub open spec fn no_options() -> Options {
    Options { recursive: false, force: false, parents: false }
}

/// The options with the one of a letter set; `None` if the command has no such
/// option.
pub open spec fn with_letter(cmd: Seq<char>, o: Options, c: char) -> Option<Options> {
    if (cmd == "rm"@ || cmd == "cp"@) && (c == 'r' || c == 'R') {
        Some(Options { recursive: true, ..o })
    } else if cmd == "rm"@ && c == 'f' {
        Some(Options { force: true, ..o })
    } else if cmd == "mkdir"@ && c == 'p' {
        Some(Options { parents: true, ..o })
    } else {
        None
    }
}

/// The options with the one of a word set; `None` if the command has no such
/// option.
pub open spec fn with_word(cmd: Seq<char>, o: Options, word: Seq<char>) -> Option<Options> {
    if (cmd == "rm"@ || cmd == "cp"@) && word == "recursive"@ {
        Some(Options { recursive: true, ..o })
    } else if cmd == "rm"@ && word == "force"@ {
        Some(Options { force: true, ..o })
    } else if cmd == "mkdir"@ && word == "parents"@ {
        Some(Options { parents: true, ..o })
    } else {
        None
    }
}

/// The options with those of the letters from `from` on set, or the message for
/// the first letter that the command does not have.
pub open spec fn with_letters(cmd: Seq<char>, o: Options, arg: Seq<char>, from: int) -> Result<
    Options,
    Seq<char>,
>
    decreases arg.len() - from,
{
    if from >= arg.len() {
        Ok(o)
    } else {
        match with_letter(cmd, o, arg[from]) {
            Some(next) => with_letters(cmd, next, arg, from + 1),
            None => Err(cmd + ": invalid option -- '"@ + seq![arg[from]] + "'"@),
        }
    }
}

/// The options and the operands that the arguments from `i` on add. Letters can
/// be bundled, `--` ends the options, and a lone `-` is an operand.
pub open spec fn parsed(
    cmd: Seq<char>,
    args: Seq<Seq<char>>,
    i: int,
    o: Options,
    operands: Seq<Seq<char>>,
    only_operands: bool,
) -> Result<(Options, Seq<Seq<char>>), Seq<char>>
    decreases args.len() - i,
{
    if i >= args.len() {
        Ok((o, operands))
    } else if only_operands || args[i] == "-"@ || !(args[i].len() > 0 && args[i][0] == '-') {
        parsed(cmd, args, i + 1, o, operands.push(args[i]), only_operands)
    } else if args[i] == "--"@ {
        parsed(cmd, args, i + 1, o, operands, true)
    } else {
        match text::after_prefix(args[i], "--"@) {
            Some(word) => match with_word(cmd, o, word) {
                Some(next) => parsed(cmd, args, i + 1, next, operands, only_operands),
                None => Err(cmd + ": unrecognised option '--"@ + word + "'"@),
            },
            None => match with_letters(cmd, o, args[i], 1) {
                Ok(next) => parsed(cmd, args, i + 1, next, operands, only_operands),
                Err(m) => Err(m),
            },
        }
    }
}

/// The options and the operands of a command.
pub open spec fn options_of(cmd: Seq<char>, args: Seq<Seq<char>>) -> Result<
    (Options, Seq<Seq<char>>),
    Seq<char>,
> {
    parsed(cmd, args, 0, no_options(), Seq::empty(), false)
}

fn letter(cmd: &str, o: Options, c: char) -> (r: Option<Options>)
    ensures
        r == with_letter(cmd@, o, c),
{
    let rm = text::same(cmd, "rm");
    let cp = text::same(cmd, "cp");
    if (rm || cp) && (c == 'r' || c == 'R') {
        Some(Options { recursive: true, force: o.force, parents: o.parents })
    } else if rm && c == 'f' {
        Some(Options { recursive: o.recursive, force: true, parents: o.parents })
    } else if text::same(cmd, "mkdir") && c == 'p' {
        Some(Options { recursive: o.recursive, force: o.force, parents: true })
    } else {
        None
    }
}

fn word_option(cmd: &str, o: Options, word: &str) -> (r: Option<Options>)
    ensures
        r == with_word(cmd@, o, word@),
{
    let rm = text::same(cmd, "rm");
    let cp = text::same(cmd, "cp");
    if (rm || cp) && text::same(word, "recursive") {
        Some(Options { recursive: true, force: o.force, parents: o.parents })
    } else if rm && text::same(word, "force") {
        Some(Options { recursive: o.recursive, force: true, parents: o.parents })
    } else if text::same(cmd, "mkdir") && text::same(word, "parents") {
        Some(Options { recursive: o.recursive, force: o.force, parents: true })
    } else {
        None
    }
}

fn letters(cmd: &str, o: Options, arg: &Vec<char>) -> (r: Result<Options, String>)
    requires
        arg.len() > 0,
    ensures
        match r {
            Ok(next) => with_letters(cmd@, o, arg@, 1) == Ok::<Options, Seq<char>>(next),
            Err(m) => with_letters(cmd@, o, arg@, 1) == Err::<Options, Seq<char>>(m@),
        },
{
    let mut now = o;
    let mut j: usize = 1;
    while j < arg.len()
        invariant
            1 <= j <= arg.len(),
            with_letters(cmd@, o, arg@, 1) == with_letters(cmd@, now, arg@, j as int),
        decreases arg.len() - j,
    {
        match letter(cmd, now, arg[j]) {
            Some(next) => {
                now = next;
            },
            None => {
                let c = text::unit(arg[j]);
                let mut m = text::join3(cmd, ": invalid option -- '", c.as_str());
                m.append("'");
                assert(c@ =~= seq![arg@[j as int]]);
                return Err(m);
            },
        }
        j += 1;
    }
    Ok(now)
}

/// Split a command's arguments into the options they set and the operands, or
/// say what is wrong with them.
pub fn flags(cmd: &str, args: &Vec<String>) -> (r: Result<(Options, Vec<String>), String>)
    ensures
        match r {
            Ok(v) => options_of(cmd@, text::texts(args@)) == Ok::<
                (Options, Seq<Seq<char>>),
                Seq<char>,
            >((v.0, text::texts(v.1@))),
            Err(m) => options_of(cmd@, text::texts(args@)) == Err::<
                (Options, Seq<Seq<char>>),
                Seq<char>,
            >(m@),
        },
{
    let ghost all = text::texts(args@);
    let mut o = Options { recursive: false, force: false, parents: false };
    let mut operands: Vec<String> = Vec::new();
    let mut only_operands = false;
    let mut i: usize = 0;
    assert(text::texts(operands@) =~= Seq::empty());
    while i < args.len()
        invariant
            i <= args.len(),
            all == text::texts(args@),
            options_of(cmd@, all) == parsed(
                cmd@,
                all,
                i as int,
                o,
                text::texts(operands@),
                only_operands,
            ),
        decreases args.len() - i,
    {
        assert(all[i as int] == args@[i as int]@);
        let cs = text::chars(args[i].as_str());
        let plain = cs.len() == 0 || cs[0] != '-';
        if only_operands || text::same(args[i].as_str(), "-") || plain {
            let ghost before = text::texts(operands@);
            operands.push(args[i].clone());
            assert(text::texts(operands@) =~= before.push(all[i as int]));
        } else if text::same(args[i].as_str(), "--") {
            only_operands = true;
        } else {
            match text::strip_prefix(&cs, "--") {
                Some(word) => {
                    let word = text::string(&word);
                    match word_option(cmd, o, word.as_str()) {
                        Some(next) => {
                            o = next;
                        },
                        None => {
                            let mut m = text::join3(cmd, ": unrecognised option '--", word.as_str());
                            m.append("'");
                            return Err(m);
                        },
                    }
                },
                None => match letters(cmd, o, &cs) {
                    Ok(next) => {
                        o = next;
                    },
                    Err(m) => return Err(m),
                },
            }
        }
        i += 1;
    }
    Ok((o, operands))
}

// ---------------------------------------------------------------------------
// What a builtin does
// ---------------------------------------------------------------------------
/// Something to do to the file system.
#[derive(Debug, PartialEq, Eq)]
pub enum Op {
    /// Copy a file to stdout.
    Cat(String),
    /// Make a directory; with `parents` also those above it, and one that exists
    /// is fine.
    Mkdir { path: String, parents: bool },
    /// Make a file, or set its times to now.
    Touch(String),
    Rm { path: String, recursive: bool, force: bool },
    Cp { src: String, dst: String, recursive: bool },
    Mv { src: String, dst: String },
}

/// What a builtin does.
#[derive(Debug, PartialEq, Eq)]
pub enum Plan {
    /// Exit with this code, after this message on stderr.
    Exit { code: i32, message: Option<String> },
    /// Print this.
    Print(String),
    /// Copy stdin to stdout.
    CopyStdin,
    /// Do these, one after the other; one that fails does not stop the others.
    Each(Vec<Op>),
}

/// Something to do to the file system.
pub enum OpView {
    Cat(Seq<char>),
    Mkdir { path: Seq<char>, parents: bool },
    Touch(Seq<char>),
    Rm { path: Seq<char>, recursive: bool, force: bool },
    Cp { src: Seq<char>, dst: Seq<char>, recursive: bool },
    Mv { src: Seq<char>, dst: Seq<char> },
}

/// What a builtin does.
pub enum BuiltinView {
    Exit { code: i32, message: Option<Seq<char>> },
    Print(Seq<char>),
    CopyStdin,
    Each(Seq<OpView>),
}

impl View for Op {
    type V = OpView;

    open spec fn view(&self) -> OpView {
        match self {
            Op::Cat(p) => OpView::Cat(p@),
            Op::Mkdir { path, parents } => OpView::Mkdir { path: path@, parents: *parents },
            Op::Touch(p) => OpView::Touch(p@),
            Op::Rm { path, recursive, force } => OpView::Rm {
                path: path@,
                recursive: *recursive,
                force: *force,
            },
            Op::Cp { src, dst, recursive } => OpView::Cp {
                src: src@,
                dst: dst@,
                recursive: *recursive,
            },
            Op::Mv { src, dst } => OpView::Mv { src: src@, dst: dst@ },
        }
    }
}

/// The views of a list of operations.
pub open spec fn op_views(v: Seq<Op>) -> Seq<OpView> {
    Seq::new(v.len(), |i: int| v[i]@)
}

impl View for Plan {
    type V = BuiltinView;

    open spec fn view(&self) -> BuiltinView {
        match self {
            Plan::Exit { code, message } => BuiltinView::Exit {
                code: *code,
                message: crate::config::opt_text(*message),
            },
            Plan::Print(s) => BuiltinView::Print(s@),
            Plan::CopyStdin => BuiltinView::CopyStdin,
            Plan::Each(v) => BuiltinView::Each(op_views(v@)),
        }
    }
}

/// A wrong use.
pub open spec fn wrong_use(message: Seq<char>) -> BuiltinView {
    BuiltinView::Exit { code: USAGE, message: Some(message) }
}

/// What `echo` prints: its arguments with a space between them, and a new line
/// unless `-n` leads.
pub open spec fn echoed(args: Seq<Seq<char>>) -> Seq<char> {
    if args.len() > 0 && args[0] == "-n"@ {
        text::joined(args.skip(1), " "@)
    } else {
        text::joined(args, " "@) + "\n"@
    }
}

/// The name that a path ends with, where it ends with one.
pub open spec fn file_name(p: Seq<char>) -> Option<Seq<char>> {
    let parts = path::components(p);
    if parts.len() == 0 || parts.last() == "."@ || parts.last() == ".."@ {
        None
    } else {
        Some(parts.last())
    }
}

/// Where a source lands: in the destination, under its own name, when that is a
/// directory; at the destination otherwise.
pub open spec fn target(src: Seq<char>, dst: Seq<char>, into_dir: bool) -> Seq<char> {
    match file_name(src) {
        Some(name) => if into_dir {
            path::joined_path(dst, name)
        } else {
            dst
        },
        None => dst,
    }
}

/// The operation on one operand of a command that takes each operand by itself.
pub open spec fn op_of(cmd: Seq<char>, o: Options, p: Seq<char>) -> OpView {
    if cmd == "cat"@ {
        OpView::Cat(p)
    } else if cmd == "mkdir"@ {
        OpView::Mkdir { path: p, parents: o.parents }
    } else if cmd == "touch"@ {
        OpView::Touch(p)
    } else {
        OpView::Rm { path: p, recursive: o.recursive, force: o.force }
    }
}

/// The operations on the operands of such a command.
pub open spec fn ops_of(cmd: Seq<char>, o: Options, operands: Seq<Seq<char>>, cwd: Seq<char>) -> Seq<
    OpView,
> {
    Seq::new(operands.len(), |i: int| op_of(cmd, o, path::joined_path(cwd, operands[i])))
}

/// The operation of `cp` or `mv` on one source.
pub open spec fn move_of(cmd: Seq<char>, o: Options, src: Seq<char>, dst: Seq<char>) -> OpView {
    if cmd == "cp"@ {
        OpView::Cp { src, dst, recursive: o.recursive }
    } else {
        OpView::Mv { src, dst }
    }
}

/// What `cp` and `mv` do. With more than one source the destination must be a
/// directory.
pub open spec fn moves(
    cmd: Seq<char>,
    o: Options,
    operands: Seq<Seq<char>>,
    cwd: Seq<char>,
    into_dir: bool,
) -> BuiltinView {
    if operands.len() < 2 {
        wrong_use(cmd + ": missing destination operand"@)
    } else {
        let dst = path::joined_path(cwd, operands.last());
        if operands.len() > 2 && !into_dir {
            wrong_use(cmd + ": target '"@ + dst + "' is not a directory"@)
        } else {
            BuiltinView::Each(
                Seq::new(
                    (operands.len() - 1) as nat,
                    |i: int|
                        {
                            let src = path::joined_path(cwd, operands[i]);
                            move_of(cmd, o, src, target(src, dst, into_dir))
                        },
                ),
            )
        }
    }
}

/// What a builtin does when there is no operand.
pub open spec fn without_operands(cmd: Seq<char>, o: Options) -> BuiltinView {
    if cmd == "cat"@ {
        BuiltinView::CopyStdin
    } else if cmd == "rm"@ && o.force {
        BuiltinView::Exit { code: 0, message: None }
    } else if cmd == "touch"@ {
        wrong_use(cmd + ": missing file operand"@)
    } else {
        wrong_use(cmd + ": missing operand"@)
    }
}

/// What a builtin does. `into_dir` says whether the destination of `cp` and `mv`
/// is a directory.
pub open spec fn plan_of(
    cmd: Seq<char>,
    args: Seq<Seq<char>>,
    cwd: Seq<char>,
    into_dir: bool,
) -> BuiltinView {
    if cmd == "true"@ {
        BuiltinView::Exit { code: 0, message: None }
    } else if cmd == "false"@ {
        BuiltinView::Exit { code: FAIL, message: None }
    } else if cmd == "echo"@ {
        BuiltinView::Print(echoed(args))
    } else if cmd == "pwd"@ {
        BuiltinView::Print(cwd + "\n"@)
    } else if !builtin_names().contains(cmd) {
        wrong_use("tsr: '"@ + cmd + "' is not a builtin"@)
    } else {
        match options_of(cmd, args) {
            Err(m) => wrong_use(m),
            Ok((o, operands)) => if cmd == "cp"@ || cmd == "mv"@ {
                moves(cmd, o, operands, cwd, into_dir)
            } else if operands.len() == 0 {
                without_operands(cmd, o)
            } else {
                BuiltinView::Each(ops_of(cmd, o, operands, cwd))
            },
        }
    }
}

fn wrong(message: String) -> (r: Plan)
    ensures
        r@ == wrong_use(message@),
{
    Plan::Exit { code: USAGE, message: Some(message) }
}

fn echo(args: &Vec<String>) -> (r: String)
    ensures
        r@ == echoed(text::texts(args@)),
{
    let ghost all = text::texts(args@);
    if args.len() > 0 {
        assert(all[0] == args@[0]@);
        if text::same(args[0].as_str(), "-n") {
            let rest = path::skip(args, 1);
            return text::join(&rest, " ");
        }
    }
    text::join2(text::join(args, " ").as_str(), "\n")
}

/// The name that a path ends with, where it ends with one.
fn name_at_end(p: &str) -> (r: Option<String>)
    ensures
        crate::config::opt_text(r) == file_name(p@),
{
    let parts = path::parts(p);
    let ghost all = path::components(p@);
    assert(all.len() == parts.len());
    if parts.len() == 0 {
        return None;
    }
    let last = &parts[parts.len() - 1];
    assert(all.last() == last@);
    if text::same(last.as_str(), ".") || text::same(last.as_str(), "..") {
        return None;
    }
    Some(last.clone())
}

fn target_of(src: &str, dst: &str, into_dir: bool) -> (r: String)
    ensures
        r@ == target(src@, dst@, into_dir),
{
    match name_at_end(src) {
        Some(name) => {
            if into_dir {
                path::join(dst, name.as_str())
            } else {
                dst.to_string()
            }
        },
        None => dst.to_string(),
    }
}

/// Where the operands of `cp` or `mv` are to go, if there are enough of them:
/// the path to look at before [`run`].
pub fn destination(cmd: &str, args: &Vec<String>, cwd: &str) -> (r: Option<String>)
    ensures
        r matches Some(p) ==> options_of(cmd@, text::texts(args@)) matches Ok(v) && v.1.len() >= 2
            && p@ == path::joined_path(cwd@, v.1.last()),
        r is None ==> (options_of(cmd@, text::texts(args@)) matches Ok(v) ==> v.1.len() < 2),
{
    match flags(cmd, args) {
        Err(_) => None,
        Ok((_, operands)) => {
            assert(text::texts(operands@).len() == operands.len());
            if operands.len() < 2 {
                return None;
            }
            let last = &operands[operands.len() - 1];
            assert(text::texts(operands@).last() == last@);
            Some(path::join(cwd, last.as_str()))
        },
    }
}

fn move_plan(cmd: &str, o: Options, operands: &Vec<String>, cwd: &str, into_dir: bool) -> (r: Plan)
    requires
        cmd@ == "cp"@ || cmd@ == "mv"@,
    ensures
        r@ == moves(cmd@, o, text::texts(operands@), cwd@, into_dir),
{
    let ghost all = text::texts(operands@);
    assert(all.len() == operands.len());
    if operands.len() < 2 {
        return wrong(text::join2(cmd, ": missing destination operand"));
    }
    let n = operands.len() - 1;
    assert(all.last() == operands@[n as int]@);
    let dst = path::join(cwd, operands[n].as_str());
    if operands.len() > 2 && !into_dir {
        let mut m = text::join3(cmd, ": target '", dst.as_str());
        m.append("' is not a directory");
        return wrong(m);
    }
    let cp = text::same(cmd, "cp");
    let mut ops: Vec<Op> = Vec::new();
    let mut i: usize = 0;
    while i < n
        invariant
            i <= n,
            n == operands.len() - 1,
            all == text::texts(operands@),
            dst@ == path::joined_path(cwd@, all.last()),
            cp == (cmd@ == "cp"@),
            ops.len() == i,
            forall|j: int|
                0 <= j < i ==> (#[trigger] ops@[j])@ == ({
                    let src = path::joined_path(cwd@, all[j]);
                    move_of(cmd@, o, src, target(src, dst@, into_dir))
                }),
        decreases n - i,
    {
        assert(all[i as int] == operands@[i as int]@);
        let src = path::join(cwd, operands[i].as_str());
        let to = target_of(src.as_str(), dst.as_str(), into_dir);
        let op = if cp {
            Op::Cp { src, dst: to, recursive: o.recursive }
        } else {
            Op::Mv { src, dst: to }
        };
        ops.push(op);
        i += 1;
    }
    let r = Plan::Each(ops);
    assert(op_views(ops@) =~= moves(cmd@, o, all, cwd@, into_dir)->Each_0);
    r
}

/// What a builtin does in a directory. `into_dir` says whether the
/// [`destination`] is a directory.
pub fn run(cmd: &str, args: &Vec<String>, cwd: &str, into_dir: bool) -> (r: Plan)
    ensures
        r@ == plan_of(cmd@, text::texts(args@), cwd@, into_dir),
{
    if text::same(cmd, "true") {
        return Plan::Exit { code: 0, message: None };
    }
    if text::same(cmd, "false") {
        return Plan::Exit { code: FAIL, message: None };
    }
    if text::same(cmd, "echo") {
        return Plan::Print(echo(args));
    }
    if text::same(cmd, "pwd") {
        return Plan::Print(text::join2(cwd, "\n"));
    }
    if !is_builtin(cmd) {
        return wrong(text::join3("tsr: '", cmd, "' is not a builtin"));
    }
    let (o, operands) = match flags(cmd, args) {
        Ok(v) => v,
        Err(m) => return wrong(m),
    };
    let ghost all = text::texts(operands@);
    assert(all.len() == operands.len());
    if text::same(cmd, "cp") || text::same(cmd, "mv") {
        return move_plan(cmd, o, &operands, cwd, into_dir);
    }
    let cat = text::same(cmd, "cat");
    let touch = text::same(cmd, "touch");
    let mkdir = text::same(cmd, "mkdir");
    if operands.len() == 0 {
        if cat {
            return Plan::CopyStdin;
        }
        if text::same(cmd, "rm") && o.force {
            return Plan::Exit { code: 0, message: None };
        }
        if touch {
            return wrong(text::join2(cmd, ": missing file operand"));
        }
        return wrong(text::join2(cmd, ": missing operand"));
    }
    let mut ops: Vec<Op> = Vec::new();
    let mut i: usize = 0;
    while i < operands.len()
        invariant
            i <= operands.len(),
            all == text::texts(operands@),
            cat == (cmd@ == "cat"@),
            touch == (cmd@ == "touch"@),
            mkdir == (cmd@ == "mkdir"@),
            ops.len() == i,
            forall|j: int|
                0 <= j < i ==> (#[trigger] ops@[j])@ == op_of(
                    cmd@,
                    o,
                    path::joined_path(cwd@, all[j]),
                ),
        decreases operands.len() - i,
    {
        assert(all[i as int] == operands@[i as int]@);
        let p = path::join(cwd, operands[i].as_str());
        let op = if cat {
            Op::Cat(p)
        } else if mkdir {
            Op::Mkdir { path: p, parents: o.parents }
        } else if touch {
            Op::Touch(p)
        } else {
            Op::Rm { path: p, recursive: o.recursive, force: o.force }
        };
        ops.push(op);
        i += 1;
    }
    assert(op_views(ops@) =~= ops_of(cmd@, o, all, cwd@));
    Plan::Each(ops)
}

// ---------------------------------------------------------------------------
// Single operations
// ---------------------------------------------------------------------------
/// What stands at a path; a link is not followed.
#[derive(Debug, PartialEq, Eq)]
pub enum Found {
    /// Nothing that can be looked at, for this reason.
    Missing(String),
    Directory,
    /// A file, or a link.
    Other,
}

/// What to do about an operation.
#[derive(Debug, PartialEq, Eq)]
pub enum Doing {
    /// It failed: the message.
    Fail(String),
    /// There is nothing to do, and nothing wrong.
    Ignore,
    /// Remove what is there with everything in it.
    RemoveTree,
    /// Remove the file or link.
    RemoveFile,
    /// Copy what is there with everything in it.
    CopyTree,
    /// Go on with it.
    GoOn,
}

/// What stands at a path.
pub enum FoundView {
    Missing(Seq<char>),
    Directory,
    Other,
}

/// What to do about an operation.
pub enum DoingView {
    Fail(Seq<char>),
    Ignore,
    RemoveTree,
    RemoveFile,
    CopyTree,
    GoOn,
}

impl View for Found {
    type V = FoundView;

    open spec fn view(&self) -> FoundView {
        match self {
            Found::Missing(m) => FoundView::Missing(m@),
            Found::Directory => FoundView::Directory,
            Found::Other => FoundView::Other,
        }
    }
}

impl View for Doing {
    type V = DoingView;

    open spec fn view(&self) -> DoingView {
        match self {
            Doing::Fail(m) => DoingView::Fail(m@),
            Doing::Ignore => DoingView::Ignore,
            Doing::RemoveTree => DoingView::RemoveTree,
            Doing::RemoveFile => DoingView::RemoveFile,
            Doing::CopyTree => DoingView::CopyTree,
            Doing::GoOn => DoingView::GoOn,
        }
    }
}

/// Whether there is nothing above a path: it is a root, or it is empty.
pub open spec fn is_root(p: Seq<char>) -> bool {
    path::components(p).len() == 0
}

/// The message for an operation that failed.
pub open spec fn failure(cmd: Seq<char>, p: Seq<char>, why: Seq<char>) -> Seq<char> {
    cmd + ": "@ + p + ": "@ + why
}

/// The message for a path that a builtin may not touch.
pub open spec fn forbidden(cmd: Seq<char>, p: Seq<char>) -> Seq<char> {
    failure(
        cmd,
        p,
        "outside the workspace (add it to `[security] allow_paths` if that is intended)"@,
    )
}

/// What `rm` does about a path. `permitted` says whether the path is inside the
/// workspace. A link is removed, not what it leads to.
pub open spec fn removal(
    p: Seq<char>,
    recursive: bool,
    force: bool,
    permitted: bool,
    found: FoundView,
) -> DoingView {
    if is_root(p) {
        DoingView::Fail("rm: refusing to remove root directory '"@ + p + "'"@)
    } else if !permitted {
        DoingView::Fail(forbidden("rm"@, p))
    } else {
        match found {
            FoundView::Missing(why) => if force {
                DoingView::Ignore
            } else {
                DoingView::Fail(failure("rm"@, p, why))
            },
            FoundView::Directory => if recursive {
                DoingView::RemoveTree
            } else {
                DoingView::Fail("rm: "@ + p + ": is a directory"@)
            },
            FoundView::Other => DoingView::RemoveFile,
        }
    }
}

/// The message for an operation that failed.
pub fn fail(cmd: &str, p: &str, why: &str) -> (r: String)
    ensures
        r@ == failure(cmd@, p@, why@),
{
    let mut m = text::join3(cmd, ": ", p);
    m.append(": ");
    m.append(why);
    m
}

fn outside(cmd: &str, p: &str) -> (r: String)
    ensures
        r@ == forbidden(cmd@, p@),
{
    fail(
        cmd,
        p,
        "outside the workspace (add it to `[security] allow_paths` if that is intended)",
    )
}

/// What `rm` does about a path.
pub fn rm(p: &str, recursive: bool, force: bool, permitted: bool, found: &Found) -> (r: Doing)
    ensures
        r@ == removal(p@, recursive, force, permitted, found@),
{
    if path::parts(p).len() == 0 {
        assert(path::components(p@).len() == 0);
        return Doing::Fail(text::join3("rm: refusing to remove root directory '", p, "'"));
    }
    if !permitted {
        return Doing::Fail(outside("rm", p));
    }
    match found {
        Found::Missing(why) => {
            if force {
                Doing::Ignore
            } else {
                Doing::Fail(fail("rm", p, why.as_str()))
            }
        },
        Found::Directory => {
            if recursive {
                Doing::RemoveTree
            } else {
                Doing::Fail(text::join3("rm: ", p, ": is a directory"))
            }
        },
        Found::Other => Doing::RemoveFile,
    }
}

/// What `cp` does about a source. `permitted` says whether source and
/// destination are inside the workspace, and `is_dir` whether the source leads to
/// a directory.
pub fn cp(src: &str, recursive: bool, permitted: bool, is_dir: bool) -> (r: Doing)
    ensures
        r@ == if !permitted {
            DoingView::Fail(forbidden("cp"@, src@))
        } else if is_dir && !recursive {
            DoingView::Fail("cp: "@ + src@ + ": is a directory (use -r)"@)
        } else {
            DoingView::CopyTree
        },
{
    if !permitted {
        return Doing::Fail(outside("cp", src));
    }
    if is_dir && !recursive {
        return Doing::Fail(text::join3("cp: ", src, ": is a directory (use -r)"));
    }
    Doing::CopyTree
}

/// What `mv` does about a source that could not be renamed, which is so across
/// file systems: copy it, and then remove it, as a tree or as a file.
pub fn mv(is_dir: bool) -> (r: (Doing, Doing))
    ensures
        r.0@ is CopyTree,
        r.1@ == if is_dir {
            DoingView::RemoveTree
        } else {
            DoingView::RemoveFile
        },
{
    (
        Doing::CopyTree,
        if is_dir {
            Doing::RemoveTree
        } else {
            Doing::RemoveFile
        },
    )
}

/// Whether an operation that needs nothing but a path may be done.
pub fn touch(cmd: &str, p: &str, permitted: bool) -> (r: Doing)
    ensures
        r@ == if permitted {
            DoingView::GoOn
        } else {
            DoingView::Fail(forbidden(cmd@, p@))
        },
{
    if permitted {
        Doing::GoOn
    } else {
        Doing::Fail(outside(cmd, p))
    }
}

/// The exit code of a builtin, given which of its operations failed: one that
/// fails does not stop the others, and any that fails counts.
pub fn exit_code(failed: &Vec<bool>) -> (r: i32)
    ensures
        r == if failed@.contains(true) {
            FAIL
        } else {
            0i32
        },
{
    let mut i: usize = 0;
    while i < failed.len()
        invariant
            i <= failed.len(),
            forall|j: int| 0 <= j < i ==> !#[trigger] failed@[j],
        decreases failed.len() - i,
    {
        if failed[i] {
            assert(failed@[i as int] == true);
            return FAIL;
        }
        i += 1;
    }
    assert(!failed@.contains(true));
    0
}

// ---------------------------------------------------------------------------
// Laws
// ---------------------------------------------------------------------------
proof fn lemma_only_operands(
    cmd: Seq<char>,
    args: Seq<Seq<char>>,
    i: int,
    o: Options,
    operands: Seq<Seq<char>>,
)
    requires
        0 <= i <= args.len(),
    ensures
        parsed(cmd, args, i, o, operands, true) == Ok::<(Options, Seq<Seq<char>>), Seq<char>>(
            (o, operands + args.skip(i)),
        ),
    decreases args.len() - i,
{
    if i < args.len() {
        lemma_only_operands(cmd, args, i + 1, o, operands.push(args[i]));
        assert(operands.push(args[i]) + args.skip(i + 1) =~= operands + args.skip(i));
    } else {
        assert(operands + args.skip(i) =~= operands);
    }
}

/// Everything behind `--` is an operand, whatever it looks like.
pub proof fn law_double_dash_ends_options(cmd: Seq<char>, operands: Seq<Seq<char>>)
    ensures
        options_of(cmd, seq!["--"@] + operands) == Ok::<(Options, Seq<Seq<char>>), Seq<char>>(
            (no_options(), operands),
        ),
{
    let args = seq!["--"@] + operands;
    reveal_strlit("--");
    reveal_strlit("-");
    assert("--"@.len() == 2 && "-"@.len() == 1);
    assert(args[0] == "--"@);
    lemma_only_operands(cmd, args, 1, no_options(), Seq::empty());
    assert(Seq::<Seq<char>>::empty() + args.skip(1) =~= operands);
}

/// `true` and `false` ignore their operands.
pub proof fn law_constants_ignore_operands(
    args: Seq<Seq<char>>,
    cwd: Seq<char>,
    into_dir: bool,
)
    ensures
        plan_of("true"@, args, cwd, into_dir) == (BuiltinView::Exit { code: 0, message: None }),
        plan_of("false"@, args, cwd, into_dir) == (BuiltinView::Exit {
            code: FAIL,
            message: None,
        }),
{
    reveal_strlit("true");
    reveal_strlit("false");
    assert("true"@.len() == 4 && "false"@.len() == 5);
}

/// `rm` removes something only inside the workspace, never a root, and a
/// directory only when it was told to.
pub proof fn law_removals_are_confined(
    p: Seq<char>,
    recursive: bool,
    force: bool,
    permitted: bool,
    found: FoundView,
)
    ensures
        ({
            let doing = removal(p, recursive, force, permitted, found);
            &&& doing is RemoveTree || doing is RemoveFile ==> permitted && !is_root(p)
            &&& doing is RemoveTree <==> permitted && !is_root(p) && found is Directory
                && recursive
            &&& doing is Ignore <==> permitted && !is_root(p) && found is Missing && force
        }),
{
}

/// The builtins, and no other command.
pub proof fn law_the_builtins(name: Seq<char>)
    ensures
        builtin_names().contains(name) <==> name == "cat"@ || name == "cp"@ || name == "echo"@
            || name == "false"@ || name == "mkdir"@ || name == "mv"@ || name == "pwd"@ || name
            == "rm"@ || name == "touch"@ || name == "true"@,
{
    let all = builtin_names();
    assert(all.len() == 10);
    assert(all[0] == "cat"@ && all[1] == "cp"@ && all[2] == "echo"@ && all[3] == "false"@ && all[4]
        == "mkdir"@ && all[5] == "mv"@ && all[6] == "pwd"@ && all[7] == "rm"@ && all[8]
        == "touch"@ && all[9] == "true"@);
}

proof fn lemma_command_names()
    ensures
        "cat"@ != "cp"@ && "cat"@ != "mv"@ && "cat"@ != "rm"@ && "cat"@ != "mkdir"@ && "cat"@
            != "touch"@ && "cat"@ != "echo"@ && "cat"@ != "pwd"@ && "cat"@ != "true"@ && "cat"@
            != "false"@,
        "cp"@ != "mv"@ && "cp"@ != "rm"@ && "cp"@ != "mkdir"@ && "cp"@ != "touch"@ && "cp"@
            != "echo"@ && "cp"@ != "pwd"@ && "cp"@ != "true"@ && "cp"@ != "false"@,
        "mv"@ != "rm"@ && "mv"@ != "mkdir"@ && "mv"@ != "touch"@ && "mv"@ != "echo"@ && "mv"@
            != "pwd"@ && "mv"@ != "true"@ && "mv"@ != "false"@,
        "rm"@ != "mkdir"@ && "rm"@ != "touch"@ && "rm"@ != "echo"@ && "rm"@ != "pwd"@ && "rm"@
            != "true"@ && "rm"@ != "false"@,
        "mkdir"@ != "touch"@ && "mkdir"@ != "echo"@ && "mkdir"@ != "pwd"@ && "mkdir"@ != "true"@
            && "mkdir"@ != "false"@,
        "touch"@ != "echo"@ && "touch"@ != "pwd"@ && "touch"@ != "true"@ && "touch"@ != "false"@,
        "echo"@ != "pwd"@ && "echo"@ != "true"@ && "echo"@ != "false"@,
        "pwd"@ != "true"@ && "pwd"@ != "false"@ && "true"@ != "false"@,
{
    reveal_strlit("cat");
    reveal_strlit("cp");
    reveal_strlit("mv");
    reveal_strlit("rm");
    reveal_strlit("mkdir");
    reveal_strlit("touch");
    reveal_strlit("echo");
    reveal_strlit("pwd");
    reveal_strlit("true");
    reveal_strlit("false");
    assert("cat"@.len() == 3 && "cat"@[0] == 'c');
    assert("pwd"@.len() == 3 && "pwd"@[0] == 'p');
    assert("cp"@.len() == 2 && "cp"@[0] == 'c');
    assert("mv"@.len() == 2 && "mv"@[0] == 'm');
    assert("rm"@.len() == 2 && "rm"@[0] == 'r');
    assert("echo"@.len() == 4 && "echo"@[0] == 'e');
    assert("true"@.len() == 4 && "true"@[0] == 't');
    assert("mkdir"@.len() == 5 && "mkdir"@[0] == 'm');
    assert("touch"@.len() == 5 && "touch"@[0] == 't');
    assert("false"@.len() == 5 && "false"@[0] == 'f');
}

/// Whether a command has an option of this letter.
pub open spec fn takes(cmd: Seq<char>, c: char) -> bool {
    ||| cmd == "rm"@ && (c == 'r' || c == 'R' || c == 'f')
    ||| cmd == "cp"@ && (c == 'r' || c == 'R')
    ||| cmd == "mkdir"@ && c == 'p'
}

/// Whether an argument is an operand: it does not begin with `-`, or it is a lone `-`.
pub open spec fn is_operand(arg: Seq<char>) -> bool {
    arg.len() == 0 || arg[0] != '-' || arg.len() == 1
}

proof fn lemma_letters(cmd: Seq<char>, o: Options, letters: Seq<char>, from: int, bad: int)
    requires
        0 <= from <= letters.len(),
    ensures
        ({
            let arg = seq!['-'] + letters;
            &&& (forall|i: int| from <= i < letters.len() ==> takes(cmd, #[trigger] letters[i]))
                ==> with_letters(cmd, o, arg, from + 1) == Ok::<Options, Seq<char>>(
                Options {
                    recursive: o.recursive || exists|i: int|
                        from <= i < letters.len() && (#[trigger] letters[i] == 'r' || letters[i]
                            == 'R'),
                    force: o.force || exists|i: int|
                        from <= i < letters.len() && #[trigger] letters[i] == 'f',
                    parents: o.parents || exists|i: int|
                        from <= i < letters.len() && #[trigger] letters[i] == 'p',
                },
            )
            &&& from <= bad < letters.len() && !takes(cmd, letters[bad]) && (forall|i: int|
                from <= i < bad ==> takes(cmd, #[trigger] letters[i])) ==> with_letters(
                cmd,
                o,
                arg,
                from + 1,
            ) == Err::<Options, Seq<char>>(cmd + ": invalid option -- '"@ + seq![letters[bad]] + "'"@)
        }),
    decreases letters.len() - from,
{
    lemma_command_names();
    let arg = seq!['-'] + letters;
    if from < letters.len() {
        assert(arg[from + 1] == letters[from]);
        if let Some(next) = with_letter(cmd, o, letters[from]) {
            lemma_letters(cmd, next, letters, from + 1, bad);
        }
        if from < bad < letters.len() && (forall|i: int|
            from <= i < bad ==> takes(cmd, #[trigger] letters[i])) {
            assert(takes(cmd, letters[from]));
        }
        if forall|i: int| from <= i < letters.len() ==> takes(cmd, #[trigger] letters[i]) {
            assert(takes(cmd, letters[from]));
        }
    }
}

proof fn lemma_operands(
    cmd: Seq<char>,
    args: Seq<Seq<char>>,
    i: int,
    j: int,
    o: Options,
    operands: Seq<Seq<char>>,
)
    requires
        0 <= i <= j <= args.len(),
        forall|k: int| i <= k < j ==> is_operand(#[trigger] args[k]),
    ensures
        parsed(cmd, args, i, o, operands, false) == parsed(
            cmd,
            args,
            j,
            o,
            operands + args.subrange(i, j),
            false,
        ),
    decreases j - i,
{
    if i < j {
        reveal_strlit("-");
        if args[i].len() == 1 && args[i][0] == '-' {
            assert(args[i] =~= "-"@);
        }
        assert(is_operand(args[i]));
        lemma_operands(cmd, args, i + 1, j, o, operands.push(args[i]));
        assert(operands.push(args[i]) + args.subrange(i + 1, j) =~= operands + args.subrange(i, j));
    } else {
        assert(operands + args.subrange(i, j) =~= operands);
    }
}

proof fn lemma_around(
    cmd: Seq<char>,
    front: Seq<Seq<char>>,
    arg: Seq<char>,
    back: Seq<Seq<char>>,
    o: Options,
)
    requires
        forall|i: int| 0 <= i < front.len() ==> is_operand(#[trigger] front[i]),
        forall|i: int| 0 <= i < back.len() ==> is_operand(#[trigger] back[i]),
    ensures
        ({
            let args = front.push(arg) + back;
            &&& options_of(cmd, args) == parsed(
                cmd,
                args,
                front.len() as int,
                no_options(),
                front,
                false,
            )
            &&& parsed(cmd, args, front.len() as int + 1, o, front, false) == Ok::<
                (Options, Seq<Seq<char>>),
                Seq<char>,
            >((o, front + back))
        }),
{
    let args = front.push(arg) + back;
    let n = front.len() as int;
    assert forall|k: int| 0 <= k < n implies is_operand(#[trigger] args[k]) by {
        assert(args[k] == front[k]);
    }
    assert forall|k: int| n + 1 <= k < args.len() implies is_operand(#[trigger] args[k]) by {
        assert(args[k] == back[k - n - 1]);
    }
    lemma_operands(cmd, args, 0, n, no_options(), Seq::empty());
    assert(Seq::<Seq<char>>::empty() + args.subrange(0, n) =~= front);
    lemma_operands(cmd, args, n + 1, args.len() as int, o, front);
    assert(args.subrange(n + 1, args.len() as int) =~= back);
}

/// Options may be bundled behind one `-` and may stand before, between or behind the
/// operands, which keep their order: `-r` and `-R` make `rm` and `cp` go into
/// directories, `-f` makes `rm` pass over what is missing, and `-p` makes `mkdir` make
/// what is above. A letter that the command does not take is an error that names it.
pub proof fn law_options(
    cmd: Seq<char>,
    front: Seq<Seq<char>>,
    letters: Seq<char>,
    back: Seq<Seq<char>>,
    bad: int,
)
    requires
        forall|i: int| 0 <= i < front.len() ==> is_operand(#[trigger] front[i]),
        forall|i: int| 0 <= i < back.len() ==> is_operand(#[trigger] back[i]),
        letters.len() > 0,
        letters[0] != '-',
    ensures
        ({
            let args = front.push(seq!['-'] + letters) + back;
            &&& (forall|i: int| 0 <= i < letters.len() ==> takes(cmd, #[trigger] letters[i]))
                ==> options_of(cmd, args) == Ok::<(Options, Seq<Seq<char>>), Seq<char>>(
                (
                    Options {
                        recursive: exists|i: int|
                            0 <= i < letters.len() && (#[trigger] letters[i] == 'r' || letters[i]
                                == 'R'),
                        force: exists|i: int|
                            0 <= i < letters.len() && #[trigger] letters[i] == 'f',
                        parents: exists|i: int|
                            0 <= i < letters.len() && #[trigger] letters[i] == 'p',
                    },
                    front + back,
                ),
            )
            &&& 0 <= bad < letters.len() && !takes(cmd, letters[bad]) && (forall|i: int|
                0 <= i < bad ==> takes(cmd, #[trigger] letters[i])) ==> options_of(cmd, args)
                == Err::<(Options, Seq<Seq<char>>), Seq<char>>(
                cmd + ": invalid option -- '"@ + seq![letters[bad]] + "'"@,
            )
        }),
{
    let arg = seq!['-'] + letters;
    let args = front.push(arg) + back;
    assert(args[front.len() as int] == arg);
    reveal_strlit("-");
    reveal_strlit("--");
    assert(arg.len() >= 2 && arg[0] == '-' && arg[1] == letters[0]);
    assert("--"@[1] == '-');
    assert(arg != "--"@ && arg != "-"@);
    assert(text::after_prefix(arg, "--"@) is None) by {
        if text::has_prefix(arg, "--"@) {
            assert(arg.take(2)[1] == arg[1]);
        }
    }
    lemma_letters(cmd, no_options(), letters, 0, bad);
    lemma_around(cmd, front, arg, back, no_options());
    if let Ok(o) = with_letters(cmd, no_options(), arg, 1) {
        lemma_around(cmd, front, arg, back, o);
    }
}

/// The long forms mean what the letters mean; any other long option is an error that
/// names it.
pub proof fn law_long_options(
    cmd: Seq<char>,
    front: Seq<Seq<char>>,
    word: Seq<char>,
    back: Seq<Seq<char>>,
)
    requires
        forall|i: int| 0 <= i < front.len() ==> is_operand(#[trigger] front[i]),
        forall|i: int| 0 <= i < back.len() ==> is_operand(#[trigger] back[i]),
        word.len() > 0,
    ensures
        ({
            let r = options_of(cmd, front.push(seq!['-', '-'] + word) + back);
            let none = Options { recursive: false, force: false, parents: false };
            if (cmd == "rm"@ || cmd == "cp"@) && word == "recursive"@ {
                r == Ok::<(Options, Seq<Seq<char>>), Seq<char>>(
                    (Options { recursive: true, ..none }, front + back),
                )
            } else if cmd == "rm"@ && word == "force"@ {
                r == Ok::<(Options, Seq<Seq<char>>), Seq<char>>(
                    (Options { force: true, ..none }, front + back),
                )
            } else if cmd == "mkdir"@ && word == "parents"@ {
                r == Ok::<(Options, Seq<Seq<char>>), Seq<char>>(
                    (Options { parents: true, ..none }, front + back),
                )
            } else {
                r == Err::<(Options, Seq<Seq<char>>), Seq<char>>(
                    cmd + ": unrecognised option '--"@ + word + "'"@,
                )
            }
        }),
{
    let arg = seq!['-', '-'] + word;
    let args = front.push(arg) + back;
    assert(args[front.len() as int] == arg);
    reveal_strlit("-");
    reveal_strlit("--");
    reveal_strlit("recursive");
    reveal_strlit("force");
    reveal_strlit("parents");
    assert("--"@ =~= seq!['-', '-']);
    assert("recursive"@.len() == 9 && "force"@.len() == 5 && "parents"@.len() == 7);
    lemma_command_names();
    assert(arg.len() >= 3 && arg[0] == '-');
    text::law_prefixes(arg, "--"@, word);
    lemma_around(cmd, front, arg, back, no_options());
    if let Some(o) = with_word(cmd, no_options(), word) {
        lemma_around(cmd, front, arg, back, o);
    }
}

/// Without options everything is an operand, in its order.
pub proof fn law_plain_operands(cmd: Seq<char>, operands: Seq<Seq<char>>)
    requires
        forall|i: int| 0 <= i < operands.len() ==> is_operand(#[trigger] operands[i]),
    ensures
        options_of(cmd, operands) == Ok::<(Options, Seq<Seq<char>>), Seq<char>>(
            (Options { recursive: false, force: false, parents: false }, operands),
        ),
{
    lemma_operands(cmd, operands, 0, operands.len() as int, no_options(), Seq::empty());
    assert(Seq::<Seq<char>>::empty() + operands.subrange(0, operands.len() as int) =~= operands);
}

/// `echo` prints its arguments with a space between them and a line break behind, which
/// a `-n` in front leaves out; it takes no other option.
pub proof fn law_echo(args: Seq<Seq<char>>, cwd: Seq<char>, into_dir: bool)
    ensures
        plan_of("echo"@, seq![seq!['-', 'n']] + args, cwd, into_dir) == BuiltinView::Print(
            text::joined(args, seq![' ']),
        ),
        args.len() == 0 || args[0] != seq!['-', 'n'] ==> plan_of("echo"@, args, cwd, into_dir)
            == BuiltinView::Print(text::joined(args, seq![' ']).push('\n')),
{
    lemma_command_names();
    reveal_strlit("-n");
    reveal_strlit(" ");
    reveal_strlit("\n");
    assert("-n"@ =~= seq!['-', 'n']);
    assert(" "@ =~= seq![' ']);
    assert("\n"@ =~= seq!['\n']);
    let all = seq![seq!['-', 'n']] + args;
    assert(all[0] == seq!['-', 'n']);
    assert(all.skip(1) =~= args);
    assert(text::joined(args, seq![' ']) + seq!['\n'] =~= text::joined(args, seq![' ']).push('\n'));
}

/// `pwd` prints the directory of the job, whatever its arguments.
pub proof fn law_pwd(args: Seq<Seq<char>>, cwd: Seq<char>, into_dir: bool)
    ensures
        plan_of("pwd"@, args, cwd, into_dir) == BuiltinView::Print(cwd.push('\n')),
{
    lemma_command_names();
    reveal_strlit("\n");
    assert(cwd + "\n"@ =~= cwd.push('\n'));
}

/// What is done to each operand of a command, seen from the job's directory, in their
/// order; without an operand `cat` copies its input, `rm -f` does nothing, and any other
/// use is wrong.
pub proof fn law_operands_one_by_one(
    cmd: Seq<char>,
    args: Seq<Seq<char>>,
    cwd: Seq<char>,
    into_dir: bool,
    o: Options,
    operands: Seq<Seq<char>>,
    i: int,
)
    requires
        cmd == "cat"@ || cmd == "mkdir"@ || cmd == "touch"@ || cmd == "rm"@,
        options_of(cmd, args) == Ok::<(Options, Seq<Seq<char>>), Seq<char>>((o, operands)),
    ensures
        operands.len() > 0 ==> plan_of(cmd, args, cwd, into_dir) is Each,
        0 <= i < operands.len() ==> {
            let ops = plan_of(cmd, args, cwd, into_dir)->Each_0;
            let p = path::joined_path(cwd, operands[i]);
            &&& ops.len() == operands.len()
            &&& cmd == "cat"@ ==> ops[i] == OpView::Cat(p)
            &&& cmd == "touch"@ ==> ops[i] == OpView::Touch(p)
            &&& cmd == "mkdir"@ ==> ops[i] == (OpView::Mkdir { path: p, parents: o.parents })
            &&& cmd == "rm"@ ==> ops[i] == (OpView::Rm {
                path: p,
                recursive: o.recursive,
                force: o.force,
            })
        },
        operands.len() == 0 ==> {
            let plan = plan_of(cmd, args, cwd, into_dir);
            &&& cmd == "cat"@ ==> plan is CopyStdin
            &&& cmd == "rm"@ && o.force ==> plan == (BuiltinView::Exit { code: 0, message: None })
            &&& cmd == "mkdir"@ || (cmd == "rm"@ && !o.force) ==> plan == (BuiltinView::Exit {
                code: 2,
                message: Some(cmd + ": missing operand"@),
            })
            &&& cmd == "touch"@ ==> plan == (BuiltinView::Exit {
                code: 2,
                message: Some(cmd + ": missing file operand"@),
            })
        },
{
    lemma_command_names();
    law_the_builtins(cmd);
}

/// The last name of a path is what it is called, unless it is `.` or `..`.
pub proof fn law_file_names(dir: Seq<char>, name: Seq<char>)
    requires
        !name.contains('/'),
        name.len() > 0,
        name != seq!['.'],
    ensures
        name != seq!['.', '.'] ==> file_name(dir + seq!['/'] + name) == Some(name) && file_name(
            name,
        ) == Some(name),
        name == seq!['.', '.'] ==> file_name(dir + seq!['/'] + name) is None,
{
    reveal_strlit(".");
    reveal_strlit("..");
    assert("."@ =~= seq!['.']);
    assert(".."@ =~= seq!['.', '.']);
    path::law_components(dir, name);
    let one = seq![name];
    assert(text::joined(one, seq!['/']) =~= name) by {
        reveal_with_fuel(text::joined, 2);
    }
    text::law_splitting(name, one, '/');
    assert(path::naming(one) =~= one) by {
        reveal_with_fuel(Seq::filter, 2);
        reveal(Seq::filter);
        assert(one.drop_last() =~= Seq::empty());
    }
    assert(path::components(dir + seq!['/'] + name).last() == name);
}

/// `cp` and `mv` take each source to the destination: into it under its own name where
/// it is a directory, else in its place, and then there can be one source only.
pub proof fn law_moves(
    cmd: Seq<char>,
    args: Seq<Seq<char>>,
    cwd: Seq<char>,
    into_dir: bool,
    o: Options,
    operands: Seq<Seq<char>>,
    i: int,
)
    requires
        cmd == "cp"@ || cmd == "mv"@,
        options_of(cmd, args) == Ok::<(Options, Seq<Seq<char>>), Seq<char>>((o, operands)),
    ensures
        ({
            let plan = plan_of(cmd, args, cwd, into_dir);
            let dst = path::joined_path(cwd, operands[operands.len() - 1]);
            &&& plan is Each <==> operands.len() == 2 || (operands.len() > 2 && into_dir)
            &&& operands.len() < 2 ==> plan == (BuiltinView::Exit {
                code: 2,
                message: Some(cmd + ": missing destination operand"@),
            })
            &&& operands.len() > 2 && !into_dir ==> plan == (BuiltinView::Exit {
                code: 2,
                message: Some(cmd + ": target '"@ + dst + "' is not a directory"@),
            })
            &&& plan is Each && 0 <= i < operands.len() - 1 ==> {
                let src = path::joined_path(cwd, operands[i]);
                let to = if into_dir && file_name(src) is Some {
                    path::joined_path(dst, file_name(src)->0)
                } else {
                    dst
                };
                &&& plan->Each_0.len() == operands.len() - 1
                &&& cmd == "cp"@ ==> plan->Each_0[i] == (OpView::Cp {
                    src,
                    dst: to,
                    recursive: o.recursive,
                })
                &&& cmd == "mv"@ ==> plan->Each_0[i] == (OpView::Mv { src, dst: to })
            }
        }),
{
    lemma_command_names();
    law_the_builtins(cmd);
}

/// A wrong option, and a command that is no builtin, is a wrong use.
pub proof fn law_wrong_uses(
    cmd: Seq<char>,
    args: Seq<Seq<char>>,
    cwd: Seq<char>,
    into_dir: bool,
    m: Seq<char>,
)
    ensures
        !builtin_names().contains(cmd) ==> plan_of(cmd, args, cwd, into_dir)
            == (BuiltinView::Exit { code: 2, message: Some("tsr: '"@ + cmd + "' is not a builtin"@) }),
        (cmd == "cat"@ || cmd == "mkdir"@ || cmd == "touch"@ || cmd == "rm"@ || cmd == "cp"@ || cmd
            == "mv"@) && options_of(cmd, args) == Err::<(Options, Seq<Seq<char>>), Seq<char>>(m)
            ==> plan_of(cmd, args, cwd, into_dir) == (BuiltinView::Exit {
            code: 2,
            message: Some(m),
        }),
        plan_of("false"@, args, cwd, into_dir) == (BuiltinView::Exit { code: 1, message: None }),
{
    lemma_command_names();
    law_the_builtins(cmd);
}

/// What `rm` fails on, and what it says: a root, a path outside the workspace, something
/// missing, and a directory that it was not told to go into. A file or a link is
/// removed.
pub proof fn law_removals_that_fail(
    p: Seq<char>,
    recursive: bool,
    force: bool,
    permitted: bool,
    found: FoundView,
)
    ensures
        ({
            let doing = removal(p, recursive, force, permitted, found);
            &&& doing is Fail <==> path::components(p).len() == 0 || !permitted || (found is Missing
                && !force) || (found is Directory && !recursive)
            &&& doing is RemoveFile <==> path::components(p).len() > 0 && permitted && found is Other
            &&& path::components(p).len() == 0 ==> doing == DoingView::Fail(
                "rm: refusing to remove root directory '"@ + p + "'"@,
            )
            &&& path::components(p).len() > 0 && !permitted ==> doing == DoingView::Fail(
                "rm"@ + ": "@ + p + ": "@
                    + "outside the workspace (add it to `[security] allow_paths` if that is intended)"@,
            )
            &&& path::components(p).len() > 0 && permitted && found is Missing && !force ==> doing
                == DoingView::Fail("rm"@ + ": "@ + p + ": "@ + found->Missing_0)
            &&& path::components(p).len() > 0 && permitted && found is Directory && !recursive
                ==> doing == DoingView::Fail("rm: "@ + p + ": is a directory"@)
        }),
{
}

} // verus!
