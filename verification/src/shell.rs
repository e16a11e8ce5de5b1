//! `run`-string parsing and expansion.
//!
//! A `run` string is parsed into a [`Program`] → [`Command`] → [`Word`] →
//! [`Part`], rather than straight into argv. The structure tells text that came
//! from an unquoted literal (where `*` is a glob) from text that came from
//! quotes or a variable (where `*` is just a character).
//!
//! Unsupported constructs (`|` `>` `<` `$(` `` ` `` `&` `(` `{a,b}`) are
//! rejected when the string is parsed. The plan that comes out is one of:
//!
//! - [`RunPlan::Direct`]: every word is static, argv is known, and the command
//!   is spawned directly.
//! - [`RunPlan::Shell`]: the string needs work at run time (variables, globs, or
//!   `&&`/`||`/`;` sequencing).
//!
//! Expansion has two stages. Variables resolve once per job, so an undefined
//! `$VAR` fails before anything executes. Globs resolve per command, at the
//! moment it runs, so a pattern sees the files an earlier command produced.

use vstd::prelude::*;

use crate::env::EnvMap;
use crate::error::{ErrorView, TsrError};
use crate::path;
use crate::text;

verus! {

/// The separator before a command in a sequence.
#[derive(Debug, Clone, Copy, PartialEq, Eq, Structural)]
pub enum Sep {
    /// `&&`: run the next command only if the previous succeeded.
    And,
    /// `||`: run the next command only if the previous failed.
    Or,
    /// `;`: always run the next command.
    Semi,
}

/// A half-open range of character offsets into a `run` string.
#[derive(Debug, Clone, Copy, PartialEq, Eq, Structural)]
pub struct Span {
    pub start: usize,
    pub end: usize,
}

/// A `$NAME` / `${NAME}` reference, with the span it occupies in the source.
#[derive(Debug, PartialEq, Eq)]
pub struct VarRef {
    pub name: String,
    pub span: Span,
}

/// One piece of a word. The variant records where the text came from, which
/// decides whether its glob metacharacters are patterns or literals.
#[derive(Debug, PartialEq, Eq)]
pub enum Part {
    /// Unquoted literal text: `*`, `?` and `[` are glob metacharacters.
    Bare(String),
    /// Text from `'...'` or `"..."`: glob metacharacters are literal.
    Quoted(String),
    /// A variable reference: its value is always literal.
    Var(VarRef),
}

/// The parts that concatenate into one argument, before globbing.
#[derive(Debug, PartialEq, Eq)]
pub struct Word {
    pub parts: Vec<Part>,
}

/// A single command: the words that become its argv.
#[derive(Debug, PartialEq, Eq)]
pub struct Command {
    pub words: Vec<Word>,
}

/// A parsed `run` string: commands joined by separators.
#[derive(Debug, PartialEq, Eq)]
pub struct Program {
    pub first: Command,
    pub rest: Vec<(Sep, Command)>,
}

/// How a `run` string runs.
#[derive(Debug, PartialEq, Eq)]
pub enum RunPlan {
    /// Every word is static: argv is known, and spawned directly.
    Direct(Vec<String>),
    /// Needs run-time work (variables, globs, or sequencing).
    Shell(Program),
}

/// One argument after variable expansion, still awaiting globbing.
#[derive(Debug, PartialEq, Eq)]
pub enum Arg {
    /// Plain text, used verbatim.
    Literal(String),
    /// A glob pattern, with the text to fall back to when it matches nothing.
    Pattern { pattern: String, literal: String },
}

/// A command whose words have been expanded against the env. Globs are not
/// resolved yet, see [`ExpandedCommand::argv`].
#[derive(Debug, PartialEq, Eq)]
pub struct ExpandedCommand {
    pub args: Vec<Arg>,
}

/// An expanded command sequence, ready to execute.
#[derive(Debug, PartialEq, Eq)]
pub struct ExecPlan {
    pub first: ExpandedCommand,
    pub rest: Vec<(Sep, ExpandedCommand)>,
}

// ---------------------------------------------------------------------------
// The model
// ---------------------------------------------------------------------------
/// A variable reference: its name and the span of the source it occupies.
pub struct VarView {
    pub name: Seq<char>,
    pub start: int,
    pub end: int,
}

/// A part of a word.
pub enum PartView {
    Bare(Seq<char>),
    Quoted(Seq<char>),
    Var(VarView),
}

/// A word: its parts.
pub type WordView = Seq<PartView>;

/// A command: its words.
pub type CommandView = Seq<WordView>;

/// A program: its first command, and the others behind their separators.
pub struct ProgramView {
    pub first: CommandView,
    pub rest: Seq<(Sep, CommandView)>,
}

/// A plan.
pub enum PlanView {
    Direct(Seq<Seq<char>>),
    Shell(ProgramView),
}

/// An argument.
pub enum ArgView {
    Literal(Seq<char>),
    Pattern { pattern: Seq<char>, literal: Seq<char> },
}

/// An expanded sequence.
pub struct ExecPlanView {
    pub first: Seq<ArgView>,
    pub rest: Seq<(Sep, Seq<ArgView>)>,
}

impl View for Arg {
    type V = ArgView;

    open spec fn view(&self) -> ArgView {
        match self {
            Arg::Literal(s) => ArgView::Literal(s@),
            Arg::Pattern { pattern, literal } => ArgView::Pattern {
                pattern: pattern@,
                literal: literal@,
            },
        }
    }
}

impl View for ExpandedCommand {
    type V = Seq<ArgView>;

    open spec fn view(&self) -> Seq<ArgView> {
        Seq::new(self.args@.len(), |i: int| self.args@[i]@)
    }
}

impl View for ExecPlan {
    type V = ExecPlanView;

    open spec fn view(&self) -> ExecPlanView {
        ExecPlanView {
            first: self.first@,
            rest: Seq::new(self.rest@.len(), |i: int| (self.rest@[i].0, self.rest@[i].1@)),
        }
    }
}

impl View for VarRef {
    type V = VarView;

    open spec fn view(&self) -> VarView {
        VarView { name: self.name@, start: self.span.start as int, end: self.span.end as int }
    }
}

impl View for Part {
    type V = PartView;

    open spec fn view(&self) -> PartView {
        match self {
            Part::Bare(s) => PartView::Bare(s@),
            Part::Quoted(s) => PartView::Quoted(s@),
            Part::Var(v) => PartView::Var(v@),
        }
    }
}

impl View for Word {
    type V = WordView;

    open spec fn view(&self) -> WordView {
        Seq::new(self.parts@.len(), |i: int| self.parts@[i]@)
    }
}

impl View for Command {
    type V = CommandView;

    open spec fn view(&self) -> CommandView {
        commands_words(self.words@)
    }
}

/// The views of a sequence of words.
pub open spec fn commands_words(words: Seq<Word>) -> CommandView {
    Seq::new(words.len(), |i: int| words[i]@)
}

impl View for Program {
    type V = ProgramView;

    open spec fn view(&self) -> ProgramView {
        ProgramView {
            first: self.first@,
            rest: Seq::new(self.rest@.len(), |i: int| (self.rest@[i].0, self.rest@[i].1@)),
        }
    }
}

impl View for RunPlan {
    type V = PlanView;

    open spec fn view(&self) -> PlanView {
        match self {
            RunPlan::Direct(argv) => PlanView::Direct(text::texts(argv@)),
            RunPlan::Shell(p) => PlanView::Shell(p@),
        }
    }
}

// ---------------------------------------------------------------------------
// The grammar
// ---------------------------------------------------------------------------
/// The error for a construct that the mini-shell does not have.
pub open spec fn unsupported_error(c: char, kind: Seq<char>, hint: Seq<char>) -> ErrorView {
    ErrorView::Config(
        "'run' string uses '"@ + seq![c] + "' ("@ + kind + "), which is unsupported — "@ + hint,
    )
}

/// The error for `$(...)` and backticks.
pub open spec fn substitution_error() -> ErrorView {
    ErrorView::Config(
        "'run' string uses command substitution ('$(...)' or backticks), which is unsupported — use a script file"@,
    )
}

/// The error that an unquoted character gives, if it gives one.
pub open spec fn rejected(c: char) -> Option<ErrorView> {
    if c == '|' {
        Some(unsupported_error('|', "pipe"@, "use `delegate` or a script file"@))
    } else if c == '>' || c == '<' {
        Some(unsupported_error(c, "redirection"@, "use a script file"@))
    } else if c == '`' {
        Some(substitution_error())
    } else if c == '&' {
        Some(
            unsupported_error(
                '&',
                "background/control operator"@,
                "use `&&`, or `delegate` for real shell control"@,
            ),
        )
    } else if c == '(' || c == ')' {
        Some(unsupported_error(c, "subshell"@, "use `delegate` or a script file"@))
    } else {
        None
    }
}

/// A plain variable name: letters, digits and `_`, with no digit in front.
pub open spec fn is_var_name(name: Seq<char>) -> bool {
    &&& name.len() > 0
    &&& !text::is_digit(name[0])
    &&& forall|i: int| 0 <= i < name.len() ==> text::is_name_char(#[trigger] name[i])
}

/// The error that the body of `${...}` gives, unless it is a plain name.
pub open spec fn var_name_error(name: Seq<char>) -> ErrorView {
    if name.len() == 0 {
        ErrorView::Config("'run' string: empty '${}' variable"@)
    } else {
        ErrorView::Config(
            "'run' string: '${"@ + name
                + "}' is not a plain variable name — parameter expansion (':-', ':+', '#', …) is unsupported; set a default in [env] or use a script file"@,
        )
    }
}

/// The first position at or after `from` that holds no name character.
pub open spec fn name_end(s: Seq<char>, from: int) -> int
    decreases s.len() - from,
{
    if from >= s.len() || !text::is_name_char(s[from]) {
        from
    } else {
        name_end(s, from + 1)
    }
}

/// What the `$` at `pos` introduces: a variable, or nothing when it is just a
/// dollar sign.
pub open spec fn dollar(s: Seq<char>, pos: int) -> Result<Option<VarView>, ErrorView> {
    let next = pos + 1;
    if next >= s.len() {
        Ok(None)
    } else if s[next] == '(' {
        Err(substitution_error())
    } else if s[next] == '{' {
        let close = text::index_from(s, '}', next + 1);
        let name = s.subrange(next + 1, close);
        if close >= s.len() {
            Err(ErrorView::Config("'run' string: unterminated '${...}'"@))
        } else if is_var_name(name) {
            Ok(Some(VarView { name, start: pos, end: close + 1 }))
        } else {
            Err(var_name_error(name))
        }
    } else if s[next] == '_' || text::is_letter(s[next]) {
        let end = name_end(s, next);
        Ok(Some(VarView { name: s.subrange(next, end), start: pos, end }))
    } else {
        Ok(None)
    }
}

/// A word with one more part: neighbours of one literal kind are one part.
pub open spec fn push_part(w: WordView, p: PartView) -> WordView {
    if w.len() == 0 {
        w.push(p)
    } else {
        match (w.last(), p) {
            (PartView::Bare(a), PartView::Bare(b)) => w.drop_last().push(PartView::Bare(a + b)),
            (PartView::Quoted(a), PartView::Quoted(b)) => w.drop_last().push(
                PartView::Quoted(a + b),
            ),
            _ => w.push(p),
        }
    }
}

/// The rest of a double-quoted text from `pos` on, added to the word `w`: the
/// word, and the position behind the closing quote.
pub open spec fn double_quoted(s: Seq<char>, pos: int, w: WordView) -> Result<
    (WordView, int),
    ErrorView,
>
    decreases s.len() - pos,
{
    if pos < 0 || pos >= s.len() {
        Err(ErrorView::Config("'run' string: unterminated double quote"@))
    } else if s[pos] == '"' {
        Ok((w, pos + 1))
    } else if s[pos] == '$' {
        proof {
            lemma_dollar_advances(s, pos);
        }
        match dollar(s, pos) {
            Err(e) => Err(e),
            Ok(None) => double_quoted(s, pos + 1, push_part(w, PartView::Quoted(seq!['$']))),
            Ok(Some(v)) => double_quoted(s, v.end, push_part(w, PartView::Var(v))),
        }
    } else if s[pos] == '`' {
        Err(substitution_error())
    } else {
        double_quoted(s, pos + 1, push_part(w, PartView::Quoted(seq![s[pos]])))
    }
}

/// The separator at `pos`, and the position behind it.
pub open spec fn separator(s: Seq<char>, pos: int) -> Option<(Sep, int)> {
    if pos >= s.len() {
        None
    } else if s[pos] == ';' {
        Some((Sep::Semi, pos + 1))
    } else if s[pos] == '&' && pos + 1 < s.len() && s[pos + 1] == '&' {
        Some((Sep::And, pos + 2))
    } else if s[pos] == '|' && pos + 1 < s.len() && s[pos + 1] == '|' {
        Some((Sep::Or, pos + 2))
    } else {
        None
    }
}

/// The words so far, with the word being read among them.
pub open spec fn with_word(words: CommandView, cur: Option<WordView>) -> CommandView {
    match cur {
        Some(w) => words.push(w),
        None => words,
    }
}

/// The rest of a command from `pos` on, behind the words read so far: all its
/// words, and the position of the separator or the end.
pub open spec fn command(
    s: Seq<char>,
    pos: int,
    words: CommandView,
    cur: Option<WordView>,
) -> Result<(CommandView, int), ErrorView>
    decreases s.len() - pos,
{
    let w = match cur {
        Some(w) => w,
        None => Seq::<PartView>::empty(),
    };
    if pos < 0 || pos >= s.len() || separator(s, pos) is Some {
        Ok((with_word(words, cur), pos))
    } else if text::is_space(s[pos]) {
        command(s, pos + 1, with_word(words, cur), None)
    } else if s[pos] == '\'' {
        let close = text::index_from(s, '\'', pos + 1);
        proof {
            text::lemma_index_from(s, '\'', pos + 1);
        }
        if close >= s.len() {
            Err(ErrorView::Config("'run' string: unterminated single quote"@))
        } else {
            command(
                s,
                close + 1,
                words,
                Some(push_part(w, PartView::Quoted(s.subrange(pos + 1, close)))),
            )
        }
    } else if s[pos] == '"' {
        proof {
            lemma_double_quoted_advances(s, pos + 1, w);
        }
        match double_quoted(s, pos + 1, w) {
            Err(e) => Err(e),
            Ok((quoted, end)) => command(s, end, words, Some(quoted)),
        }
    } else if s[pos] == '$' {
        proof {
            lemma_dollar_advances(s, pos);
        }
        match dollar(s, pos) {
            Err(e) => Err(e),
            Ok(None) => command(s, pos + 1, words, Some(push_part(w, PartView::Bare(seq!['$'])))),
            Ok(Some(v)) => command(s, v.end, words, Some(push_part(w, PartView::Var(v)))),
        }
    } else {
        match rejected(s[pos]) {
            Some(e) => Err(e),
            None => command(s, pos + 1, words, Some(push_part(w, PartView::Bare(seq![s[pos]])))),
        }
    }
}

/// The rest of a sequence of commands from `pos` on, behind those read so far:
/// all the commands, and the separators between them.
pub open spec fn sequence(
    s: Seq<char>,
    pos: int,
    commands: Seq<CommandView>,
    seps: Seq<Sep>,
) -> Result<(Seq<CommandView>, Seq<Sep>), ErrorView>
    decreases s.len() - pos,
{
    if pos < 0 || pos > s.len() {
        Ok((commands, seps))
    } else {
        proof {
            lemma_command_advances(s, pos, Seq::empty(), None);
        }
        match command(s, pos, Seq::empty(), None) {
            Err(e) => Err(e),
            Ok((c, end)) => match separator(s, end) {
                None => Ok((commands.push(c), seps)),
                Some((sep, next)) => sequence(s, next, commands.push(c), seps.push(sep)),
            },
        }
    }
}

/// The unquoted characters of a word.
pub open spec fn bare_text(w: WordView) -> Seq<char>
    decreases w.len(),
{
    if w.len() == 0 {
        Seq::empty()
    } else {
        bare_text(w.drop_last()) + match w.last() {
            PartView::Bare(s) => s,
            _ => Seq::empty(),
        }
    }
}

/// Whether the group whose inside is read from `pos` on closes, and holds a
/// comma that is in no group of its own: `depth` groups are open inside it, and
/// `comma` says whether such a comma was seen.
pub open spec fn closes_with_comma(s: Seq<char>, pos: int, depth: nat, comma: bool) -> bool
    decreases s.len() - pos,
{
    if pos < 0 || pos >= s.len() {
        false
    } else if s[pos] == '{' {
        closes_with_comma(s, pos + 1, depth + 1, comma)
    } else if s[pos] == '}' {
        if depth == 0 {
            comma
        } else {
            closes_with_comma(s, pos + 1, (depth - 1) as nat, comma)
        }
    } else {
        closes_with_comma(s, pos + 1, depth, comma || (depth == 0 && s[pos] == ','))
    }
}

/// Whether the text holds a `{a,b}` group.
pub open spec fn has_brace_group(s: Seq<char>) -> bool {
    exists|i: int| 0 <= i < s.len() && #[trigger] s[i] == '{' && closes_with_comma(s, i + 1, 0, false)
}

/// Whether an unquoted `{a,b}` group stands in one of the command's words.
pub open spec fn has_brace_expansion(c: CommandView) -> bool {
    exists|i: int| 0 <= i < c.len() && has_brace_group(bare_text(#[trigger] c[i]))
}

/// The error for an unquoted `{a,b}` group.
pub open spec fn brace_error() -> ErrorView {
    ErrorView::Config(
        "'run' string uses '{a,b}' (brace expansion), which is unsupported — list the paths explicitly, or quote the braces"@,
    )
}

/// All the commands of a program, in order.
pub open spec fn all_commands(p: ProgramView) -> Seq<CommandView> {
    seq![p.first] + Seq::new(p.rest.len(), |i: int| p.rest[i].1)
}

/// The separators of a program, in order.
pub open spec fn all_seps(p: ProgramView) -> Seq<Sep> {
    Seq::new(p.rest.len(), |i: int| p.rest[i].0)
}

/// The program that a `run` string denotes.
pub open spec fn program(s: Seq<char>) -> Result<ProgramView, ErrorView> {
    match sequence(s, 0, Seq::empty(), Seq::empty()) {
        Err(e) => Err(e),
        Ok((commands, seps)) => if commands[0].len() == 0 {
            Err(ErrorView::Config("'run' string: missing command"@))
        } else if exists|i: int| 0 < i < commands.len() && (#[trigger] commands[i]).len() == 0 {
            Err(ErrorView::Config("'run' string: missing command around '&&'/'||'/';'"@))
        } else if exists|i: int|
            0 <= i < commands.len() && has_brace_expansion(#[trigger] commands[i]) {
            Err(brace_error())
        } else {
            Ok(
                ProgramView {
                    first: commands[0],
                    rest: Seq::new(seps.len(), |i: int| (seps[i], commands[i + 1])),
                },
            )
        },
    }
}

// ---------------------------------------------------------------------------
// Facts about the grammar
// ---------------------------------------------------------------------------
pub proof fn lemma_name_end(s: Seq<char>, from: int)
    requires
        0 <= from <= s.len(),
    ensures
        from <= name_end(s, from) <= s.len(),
        from < s.len() && text::is_name_char(s[from]) ==> from < name_end(s, from),
    decreases s.len() - from,
{
    if from < s.len() && text::is_name_char(s[from]) {
        lemma_name_end(s, from + 1);
    }
}

/// A variable ends behind its `$`, and inside the string.
pub proof fn lemma_dollar_advances(s: Seq<char>, pos: int)
    requires
        0 <= pos < s.len(),
    ensures
        dollar(s, pos) matches Ok(Some(v)) ==> pos + 1 < v.end <= s.len(),
{
    let next = pos + 1;
    if next < s.len() {
        lemma_name_end(s, next);
        text::lemma_index_from(s, '}', next);
        if next + 1 <= s.len() {
            text::lemma_index_from(s, '}', next + 1);
        }
    }
}

pub proof fn lemma_double_quoted_advances(s: Seq<char>, pos: int, w: WordView)
    requires
        0 <= pos <= s.len(),
    ensures
        double_quoted(s, pos, w) matches Ok((_, end)) ==> pos < end <= s.len(),
    decreases s.len() - pos,
{
    if pos < s.len() && s[pos] != '"' {
        if s[pos] == '$' {
            lemma_dollar_advances(s, pos);
            match dollar(s, pos) {
                Err(e) => {},
                Ok(None) => lemma_double_quoted_advances(
                    s,
                    pos + 1,
                    push_part(w, PartView::Quoted(seq!['$'])),
                ),
                Ok(Some(v)) => lemma_double_quoted_advances(
                    s,
                    v.end,
                    push_part(w, PartView::Var(v)),
                ),
            }
        } else if s[pos] != '`' {
            lemma_double_quoted_advances(s, pos + 1, push_part(w, PartView::Quoted(seq![s[pos]])));
        }
    }
}

pub proof fn lemma_command_advances(s: Seq<char>, pos: int, words: CommandView, cur: Option<WordView>)
    requires
        0 <= pos <= s.len(),
    ensures
        command(s, pos, words, cur) matches Ok((_, end)) ==> pos <= end <= s.len(),
    decreases s.len() - pos,
{
    let w = match cur {
        Some(w) => w,
        None => Seq::<PartView>::empty(),
    };
    if pos >= s.len() || separator(s, pos) is Some {
    } else if text::is_space(s[pos]) {
        lemma_command_advances(s, pos + 1, with_word(words, cur), None);
    } else if s[pos] == '\'' {
        let close = text::index_from(s, '\'', pos + 1);
        text::lemma_index_from(s, '\'', pos + 1);
        if close < s.len() {
            lemma_command_advances(
                s,
                close + 1,
                words,
                Some(push_part(w, PartView::Quoted(s.subrange(pos + 1, close)))),
            );
        }
    } else if s[pos] == '"' {
        lemma_double_quoted_advances(s, pos + 1, w);
        match double_quoted(s, pos + 1, w) {
            Err(e) => {},
            Ok((quoted, end)) => lemma_command_advances(s, end, words, Some(quoted)),
        }
    } else if s[pos] == '$' {
        lemma_dollar_advances(s, pos);
        match dollar(s, pos) {
            Err(e) => {},
            Ok(None) => lemma_command_advances(
                s,
                pos + 1,
                words,
                Some(push_part(w, PartView::Bare(seq!['$']))),
            ),
            Ok(Some(v)) => lemma_command_advances(
                s,
                v.end,
                words,
                Some(push_part(w, PartView::Var(v))),
            ),
        }
    } else if rejected(s[pos]) is None {
        lemma_command_advances(
            s,
            pos + 1,
            words,
            Some(push_part(w, PartView::Bare(seq![s[pos]]))),
        );
    }
}

// ---------------------------------------------------------------------------
// Parsing
// ---------------------------------------------------------------------------
impl Word {
    /// A word without parts.
    fn empty() -> (w: Word)
        ensures
            w@ == Seq::<PartView>::empty(),
    {
        let w = Word { parts: Vec::new() };
        assert(w@ =~= Seq::<PartView>::empty());
        w
    }

    /// Append a part; neighbours of one literal kind become one part.
    fn push(&mut self, part: Part)
        ensures
            final(self)@ == push_part(old(self)@, part@),
    {
        let ghost before = self@;
        match self.parts.pop() {
            None => {
                self.parts.push(part);
                assert(self@ =~= before.push(part@));
            },
            Some(last) => {
                assert(last@ == before.last());
                match (last, part) {
                    (Part::Bare(prev), Part::Bare(next)) => {
                        let joined = text::join2(prev.as_str(), next.as_str());
                        self.parts.push(Part::Bare(joined));
                        assert(self@ =~= before.drop_last().push(PartView::Bare(prev@ + next@)));
                    },
                    (Part::Quoted(prev), Part::Quoted(next)) => {
                        let joined = text::join2(prev.as_str(), next.as_str());
                        self.parts.push(Part::Quoted(joined));
                        assert(self@ =~= before.drop_last().push(PartView::Quoted(prev@ + next@)));
                    },
                    (last, part) => {
                        self.parts.push(last);
                        self.parts.push(part);
                        assert(self@ =~= before.push(part@));
                    },
                }
            },
        }
    }
}

fn unsupported_substitution() -> (e: TsrError)
    ensures
        e@ == substitution_error(),
{
    TsrError::config(
        "'run' string uses command substitution ('$(...)' or backticks), which is unsupported — use a script file",
    )
}

fn unsupported_msg(c: char, kind: &str, hint: &str) -> (e: TsrError)
    ensures
        e@ == unsupported_error(c, kind@, hint@),
{
    let mut m = "'run' string uses '".to_string();
    m.append(text::unit(c).as_str());
    m.append("' (");
    m.append(kind);
    m.append("), which is unsupported — ");
    m.append(hint);
    TsrError::Config(m)
}

/// Reject an unsupported metacharacter, with a message that points at the
/// escape hatch.
fn reject_unsupported(c: char) -> (r: Result<(), TsrError>)
    ensures
        match r {
            Ok(_) => rejected(c) is None,
            Err(e) => rejected(c) == Some(e@),
        },
{
    match c {
        '|' => Err(unsupported_msg('|', "pipe", "use `delegate` or a script file")),
        '>' => Err(unsupported_msg(c, "redirection", "use a script file")),
        '<' => Err(unsupported_msg(c, "redirection", "use a script file")),
        '`' => Err(unsupported_substitution()),
        '&' => Err(
            unsupported_msg(
                '&',
                "background/control operator",
                "use `&&`, or `delegate` for real shell control",
            ),
        ),
        '(' => Err(unsupported_msg(c, "subshell", "use `delegate` or a script file")),
        ')' => Err(unsupported_msg(c, "subshell", "use `delegate` or a script file")),
        _ => Ok(()),
    }
}

/// The body of `${...}` must be a plain variable name. Anything else is a
/// parameter expansion, which the mini-shell does not have.
fn validate_var_name(name: &str) -> (r: Result<(), TsrError>)
    ensures
        match r {
            Ok(_) => is_var_name(name@),
            Err(e) => !is_var_name(name@) && e@ == var_name_error(name@),
        },
{
    let cs = text::chars(name);
    if cs.len() == 0 {
        return Err(TsrError::config("'run' string: empty '${}' variable"));
    }
    let mut valid = !text::digit(cs[0]);
    let mut i: usize = 0;
    while i < cs.len()
        invariant
            i <= cs.len(),
            cs@ == name@,
            cs.len() > 0,
            valid == (!text::is_digit(cs@[0]) && forall|j: int|
                0 <= j < i ==> text::is_name_char(#[trigger] cs@[j])),
        decreases cs.len() - i,
    {
        valid = valid && text::name_char(cs[i]);
        i += 1;
    }
    if valid {
        return Ok(());
    }
    Err(
        TsrError::Config(
            text::join3(
                "'run' string: '${",
                name,
                "}' is not a plain variable name — parameter expansion (':-', ':+', '#', …) is unsupported; set a default in [env] or use a script file",
            ),
        ),
    )
}

/// Quote-aware lexer over a `run` string.
struct Lexer {
    chars: Vec<char>,
    pos: usize,
}

impl Lexer {
    spec fn wf(&self) -> bool {
        self.pos <= self.chars.len()
    }

    fn new(input: &str) -> (l: Lexer)
        ensures
            l.wf(),
            l.chars@ == input@,
            l.pos == 0,
    {
        Lexer { chars: text::chars(input), pos: 0 }
    }

    fn peek(&self) -> (c: Option<char>)
        ensures
            c == if self.pos < self.chars@.len() {
                Some(self.chars@[self.pos as int])
            } else {
                None
            },
    {
        if self.pos < self.chars.len() {
            Some(self.chars[self.pos])
        } else {
            None
        }
    }

    /// Parse the commands of a `run` string and the separators between them.
    #[verifier::loop_isolation(false)]
    fn parse_sequence(&mut self) -> (r: Result<Program, TsrError>)
        requires
            old(self).pos == 0,
        ensures
            match r {
                Ok(p) => sequence(old(self).chars@, 0, Seq::empty(), Seq::empty()) == Ok::<
                    (Seq<CommandView>, Seq<Sep>),
                    ErrorView,
                >((all_commands(p@), all_seps(p@))),
                Err(e) => sequence(old(self).chars@, 0, Seq::empty(), Seq::empty()) == Err::<
                    (Seq<CommandView>, Seq<Sep>),
                    ErrorView,
                >(e@),
            },
    {
        let ghost s = self.chars@;
        let ghost goal = sequence(s, 0, Seq::empty(), Seq::empty());
        let first = match self.parse_command() {
            Ok(c) => c,
            Err(e) => return Err(e),
        };
        let mut p = Program { first, rest: Vec::new() };
        proof {
            lemma_command_advances(s, 0, Seq::empty(), None);
            assert(all_commands(p@) =~= Seq::<CommandView>::empty().push(first@));
            assert(all_seps(p@) =~= Seq::<Sep>::empty());
        }
        loop
            invariant
                self.wf(),
                self.chars@ == s,
                s == old(self).chars@,
                goal == sequence(s, 0, Seq::empty(), Seq::empty()),
                goal == match separator(s, self.pos as int) {
                    None => Ok((all_commands(p@), all_seps(p@))),
                    Some((sep, next)) => sequence(
                        s,
                        next,
                        all_commands(p@),
                        all_seps(p@).push(sep),
                    ),
                },
            decreases s.len() - self.pos,
        {
            let sep = match self.parse_separator() {
                Some(sep) => sep,
                None => return Ok(p),
            };
            proof {
                lemma_command_advances(s, self.pos as int, Seq::empty(), None);
            }
            let command = match self.parse_command() {
                Ok(c) => c,
                Err(e) => return Err(e),
            };
            let ghost before = p@;
            p.rest.push((sep, command));
            assert(all_commands(p@) =~= all_commands(before).push(command@));
            assert(all_seps(p@) =~= all_seps(before).push(sep));
        }
    }

    /// Parse a whole `run` string.
    #[verifier::loop_isolation(false)]
    fn parse_program(&mut self) -> (r: Result<Program, TsrError>)
        requires
            old(self).pos == 0,
        ensures
            match r {
                Ok(p) => program(old(self).chars@) == Ok::<ProgramView, ErrorView>(p@),
                Err(e) => program(old(self).chars@) == Err::<ProgramView, ErrorView>(e@),
            },
    {
        let p = match self.parse_sequence() {
            Ok(p) => p,
            Err(e) => return Err(e),
        };
        let ghost commands = all_commands(p@);
        assert(commands[0] == p.first@);
        // An operator in front or at the end leaves an empty command.
        if p.first.words.len() == 0 {
            return Err(TsrError::config("'run' string: missing command"));
        }
        let mut i: usize = 0;
        while i < p.rest.len()
            invariant
                i <= p.rest.len(),
                commands == all_commands(p@),
                forall|j: int| 0 < j <= i ==> (#[trigger] commands[j]).len() > 0,
            decreases p.rest.len() - i,
        {
            assert(commands[i + 1] == p.rest@[i as int].1@);
            if p.rest[i].1.words.len() == 0 {
                assert(commands[i + 1].len() == 0);
                return Err(TsrError::config("'run' string: missing command around '&&'/'||'/';'"));
            }
            i += 1;
        }
        let mut braces = brace_expansion(&p.first);
        i = 0;
        while i < p.rest.len()
            invariant
                i <= p.rest.len(),
                commands == all_commands(p@),
                braces == exists|j: int|
                    0 <= j <= i && has_brace_expansion(#[trigger] commands[j]),
            decreases p.rest.len() - i,
        {
            assert(commands[i + 1] == p.rest@[i as int].1@);
            braces = braces || brace_expansion(&p.rest[i].1);
            i += 1;
        }
        if braces {
            return Err(
                TsrError::config(
                    "'run' string uses '{a,b}' (brace expansion), which is unsupported — list the paths explicitly, or quote the braces",
                ),
            );
        }
        assert(p@.rest =~= Seq::new(
            all_seps(p@).len(),
            |i: int| (all_seps(p@)[i], commands[i + 1]),
        ));
        Ok(p)
    }

    /// Parse a single command up to the next separator or the end.
    #[verifier::loop_isolation(false)]
    fn parse_command(&mut self) -> (r: Result<Command, TsrError>)
        requires
            old(self).wf(),
        ensures
            final(self).chars@ == old(self).chars@,
            match r {
                Ok(c) => final(self).wf() && command(
                    old(self).chars@,
                    old(self).pos as int,
                    Seq::empty(),
                    None,
                ) == Ok::<(CommandView, int), ErrorView>((c@, final(self).pos as int)),
                Err(e) => command(old(self).chars@, old(self).pos as int, Seq::empty(), None)
                    == Err::<(CommandView, int), ErrorView>(e@),
            },
    {
        let ghost s = self.chars@;
        let ghost goal = command(s, self.pos as int, Seq::empty(), None);
        let mut words: Vec<Word> = Vec::new();
        let mut cur = Word::empty();
        let mut word_started = false;
        assert(commands_words(words@) =~= Seq::<WordView>::empty());
        while !self.at_separator()
            invariant
                self.wf(),
                self.chars@ == s,
                !word_started ==> cur@ == Seq::<PartView>::empty(),
                goal == command(
                    s,
                    self.pos as int,
                    commands_words(words@),
                    if word_started {
                        Some(cur@)
                    } else {
                        None
                    },
                ),
            decreases s.len() - self.pos,
        {
            let c = self.chars[self.pos];
            let ghost views = commands_words(words@);
            if text::space(c) {
                self.pos += 1;
                if word_started {
                    words.push(cur);
                    cur = Word::empty();
                    word_started = false;
                    assert(commands_words(words@) =~= with_word(views, Some(words@.last()@)));
                }
            } else if c == '\'' {
                match self.lex_single_quote(&mut cur) {
                    Ok(_) => {},
                    Err(e) => return Err(e),
                }
                word_started = true;
            } else if c == '"' {
                match self.lex_double_quote(&mut cur) {
                    Ok(_) => {},
                    Err(e) => return Err(e),
                }
                word_started = true;
            } else if c == '$' {
                proof {
                    lemma_dollar_advances(s, self.pos as int);
                }
                match self.lex_dollar() {
                    Ok(Some(var)) => cur.push(Part::Var(var)),
                    Ok(None) => cur.push(Part::Bare(text::unit('$'))),
                    Err(e) => return Err(e),
                }
                word_started = true;
            } else {
                match reject_unsupported(c) {
                    Ok(_) => {},
                    Err(e) => return Err(e),
                }
                self.pos += 1;
                cur.push(Part::Bare(text::unit(c)));
                word_started = true;
            }
        }
        let ghost views = commands_words(words@);
        if word_started {
            words.push(cur);
            assert(commands_words(words@) =~= views.push(cur@));
        }
        Ok(Command { words })
    }

    /// Whether the command being read ends here: a separator, or the end.
    fn at_separator(&self) -> (r: bool)
        requires
            self.wf(),
        ensures
            r == (self.pos >= self.chars@.len() || separator(self.chars@, self.pos as int) is Some),
    {
        if self.pos >= self.chars.len() {
            return true;
        }
        let c = self.chars[self.pos];
        let twice = self.pos + 1 < self.chars.len() && self.chars[self.pos + 1] == c;
        c == ';' || (c == '&' && twice) || (c == '|' && twice)
    }

    /// After a command, consume the separator that follows it, if any.
    fn parse_separator(&mut self) -> (r: Option<Sep>)
        requires
            old(self).wf(),
        ensures
            final(self).wf(),
            final(self).chars@ == old(self).chars@,
            separator(old(self).chars@, old(self).pos as int) == match r {
                Some(sep) => Some((sep, final(self).pos as int)),
                None => None,
            },
    {
        if !self.at_separator() || self.pos >= self.chars.len() {
            return None;
        }
        let c = self.chars[self.pos];
        if c == ';' {
            self.pos += 1;
            Some(Sep::Semi)
        } else if c == '&' {
            self.pos += 2;
            Some(Sep::And)
        } else {
            self.pos += 2;
            Some(Sep::Or)
        }
    }

    /// `'...'`: everything literal, no expansion, no globbing.
    fn lex_single_quote(&mut self, cur: &mut Word) -> (r: Result<(), TsrError>)
        requires
            old(self).pos < old(self).chars.len(),
        ensures
            final(self).chars@ == old(self).chars@,
            ({
                let s = old(self).chars@;
                let open = old(self).pos as int;
                let close = text::index_from(s, '\'', open + 1);
                match r {
                    Ok(_) => {
                        &&& close < s.len()
                        &&& final(self).pos == close + 1
                        &&& final(self).pos > old(self).pos
                        &&& final(self).wf()
                        &&& final(cur)@ == push_part(
                            old(cur)@,
                            PartView::Quoted(s.subrange(open + 1, close)),
                        )
                    },
                    Err(e) => close >= s.len() && e@ == ErrorView::Config(
                        "'run' string: unterminated single quote"@,
                    ),
                }
            }),
    {
        let close = text::find(&self.chars, '\'', self.pos + 1);
        if close >= self.chars.len() {
            return Err(TsrError::config("'run' string: unterminated single quote"));
        }
        let lit = text::slice(&self.chars, self.pos + 1, close);
        cur.push(Part::Quoted(lit));
        self.pos = close + 1;
        Ok(())
    }

    /// `"..."`: literal text with `$VAR`/`${VAR}` expansion. Command
    /// substitution and backticks stay rejected.
    #[verifier::loop_isolation(false)]
    fn lex_double_quote(&mut self, cur: &mut Word) -> (r: Result<(), TsrError>)
        requires
            old(self).pos < old(self).chars.len(),
        ensures
            final(self).chars@ == old(self).chars@,
            match r {
                Ok(_) => {
                    &&& final(self).wf()
                    &&& final(self).pos > old(self).pos
                    &&& double_quoted(old(self).chars@, old(self).pos + 1, old(cur)@) == Ok::<
                        (WordView, int),
                        ErrorView,
                    >((final(cur)@, final(self).pos as int))
                },
                Err(e) => double_quoted(old(self).chars@, old(self).pos + 1, old(cur)@) == Err::<
                    (WordView, int),
                    ErrorView,
                >(e@),
            },
    {
        let ghost s = self.chars@;
        let ghost goal = double_quoted(s, self.pos + 1, cur@);
        self.pos += 1;
        loop
            invariant
                self.wf(),
                self.pos > old(self).pos,
                self.chars@ == s,
                s == old(self).chars@,
                goal == double_quoted(old(self).chars@, old(self).pos + 1, old(cur)@),
                goal == double_quoted(s, self.pos as int, cur@),
            decreases s.len() - self.pos,
        {
            match self.peek() {
                Some('"') => {
                    self.pos += 1;
                    return Ok(());
                },
                Some('$') => {
                    proof {
                        lemma_dollar_advances(s, self.pos as int);
                    }
                    match self.lex_dollar() {
                        Ok(Some(var)) => cur.push(Part::Var(var)),
                        Ok(None) => cur.push(Part::Quoted(text::unit('$'))),
                        Err(e) => return Err(e),
                    }
                },
                Some('`') => return Err(unsupported_substitution()),
                Some(c) => {
                    self.pos += 1;
                    cur.push(Part::Quoted(text::unit(c)));
                },
                None => return Err(TsrError::config("'run' string: unterminated double quote")),
            }
        }
    }

    /// Parse what a `$` introduces: a [`VarRef`], or `None` when the `$` is just
    /// a dollar sign. Rejects `$(...)`.
    #[verifier::loop_isolation(false)]
    fn lex_dollar(&mut self) -> (r: Result<Option<VarRef>, TsrError>)
        requires
            old(self).pos < old(self).chars.len(),
        ensures
            final(self).chars@ == old(self).chars@,
            match r {
                Ok(Some(v)) => {
                    &&& dollar(old(self).chars@, old(self).pos as int) == Ok::<
                        Option<VarView>,
                        ErrorView,
                    >(Some(v@))
                    &&& final(self).pos == v@.end
                    &&& final(self).wf()
                },
                Ok(None) => {
                    &&& dollar(old(self).chars@, old(self).pos as int) == Ok::<
                        Option<VarView>,
                        ErrorView,
                    >(None)
                    &&& final(self).pos == old(self).pos + 1
                },
                Err(e) => dollar(old(self).chars@, old(self).pos as int) == Err::<
                    Option<VarView>,
                    ErrorView,
                >(e@),
            },
    {
        let start = self.pos;
        self.pos += 1;
        match self.peek() {
            Some('(') => Err(unsupported_substitution()),
            Some('{') => {
                let close = text::find(&self.chars, '}', self.pos + 1);
                if close >= self.chars.len() {
                    return Err(TsrError::config("'run' string: unterminated '${...}'"));
                }
                let name = text::slice(&self.chars, self.pos + 1, close);
                match validate_var_name(name.as_str()) {
                    Ok(_) => {},
                    Err(e) => return Err(e),
                }
                self.pos = close + 1;
                Ok(Some(VarRef { name, span: Span { start, end: self.pos } }))
            },
            Some(c) => {
                if c != '_' && !text::letter(c) {
                    return Ok(None);
                }
                let from = self.pos;
                while self.pos < self.chars.len() && text::name_char(self.chars[self.pos])
                    invariant
                        from <= self.pos <= self.chars@.len(),
                        self.chars@ == old(self).chars@,
                        name_end(self.chars@, from as int) == name_end(
                            self.chars@,
                            self.pos as int,
                        ),
                    decreases self.chars@.len() - self.pos,
                {
                    self.pos += 1;
                }
                let name = text::slice(&self.chars, from, self.pos);
                Ok(Some(VarRef { name, span: Span { start, end: self.pos } }))
            },
            None => Ok(None),
        }
    }
}

/// Whether an unquoted `{a,b}` group stands in one of the command's words.
fn brace_expansion(c: &Command) -> (r: bool)
    ensures
        r == has_brace_expansion(c@),
{
    let mut i: usize = 0;
    while i < c.words.len()
        invariant
            i <= c.words.len(),
            forall|j: int| 0 <= j < i ==> !has_brace_group(bare_text(#[trigger] c@[j])),
        decreases c.words.len() - i,
    {
        if brace_group(&bare_chars(&c.words[i])) {
            assert(has_brace_group(bare_text(c@[i as int])));
            return true;
        }
        assert(!has_brace_group(bare_text(c@[i as int])));
        i += 1;
    }
    false
}

/// The unquoted characters of a word.
fn bare_chars(w: &Word) -> (r: Vec<char>)
    ensures
        r@ == bare_text(w@),
{
    let mut out: Vec<char> = Vec::new();
    let mut i: usize = 0;
    assert(w@.take(0) =~= Seq::<PartView>::empty());
    while i < w.parts.len()
        invariant
            i <= w.parts.len(),
            out@ == bare_text(w@.take(i as int)),
        decreases w.parts.len() - i,
    {
        assert(w@.take(i + 1).drop_last() =~= w@.take(i as int));
        assert(w@.take(i + 1).last() == w.parts@[i as int]@);
        if let Part::Bare(s) = &w.parts[i] {
            let mut cs = text::chars(s.as_str());
            out.append(&mut cs);
        }
        assert(out@ =~= bare_text(w@.take(i + 1)));
        i += 1;
    }
    assert(w@.take(i as int) =~= w@);
    out
}

/// Whether the text holds a `{a,b}` group.
fn brace_group(cs: &Vec<char>) -> (r: bool)
    ensures
        r == has_brace_group(cs@),
{
    let mut i: usize = 0;
    while i < cs.len()
        invariant
            i <= cs.len(),
            forall|j: int|
                0 <= j < i && #[trigger] cs@[j] == '{' ==> !closes_with_comma(
                    cs@,
                    j + 1,
                    0,
                    false,
                ),
        decreases cs.len() - i,
    {
        if cs[i] == '{' && group_has_comma(cs, i + 1) {
            assert(cs@[i as int] == '{');
            return true;
        }
        i += 1;
    }
    false
}

/// Whether the group whose inside starts at `from` closes and holds a comma of
/// its own.
fn group_has_comma(cs: &Vec<char>, from: usize) -> (r: bool)
    requires
        from <= cs.len(),
    ensures
        r == closes_with_comma(cs@, from as int, 0, false),
{
    let mut i: usize = from;
    let mut depth: usize = 0;
    let mut comma = false;
    while i < cs.len()
        invariant
            from <= i <= cs.len(),
            depth <= i,
            closes_with_comma(cs@, from as int, 0, false) == closes_with_comma(
                cs@,
                i as int,
                depth as nat,
                comma,
            ),
        decreases cs.len() - i,
    {
        if cs[i] == '{' {
            depth += 1;
        } else if cs[i] == '}' {
            if depth == 0 {
                return comma;
            }
            depth -= 1;
        } else if depth == 0 && cs[i] == ',' {
            comma = true;
        }
        i += 1;
    }
    false
}

// ---------------------------------------------------------------------------
// Classification
// ---------------------------------------------------------------------------
/// The characters that make a bare word a glob pattern.
pub open spec fn is_glob_char(c: char) -> bool {
    c == '*' || c == '?' || c == '['
}

/// Whether the text holds a glob metacharacter.
pub open spec fn has_glob_meta(s: Seq<char>) -> bool {
    exists|i: int| 0 <= i < s.len() && is_glob_char(#[trigger] s[i])
}

/// Whether the part needs work at run time: a variable, or an unquoted glob.
pub open spec fn is_dynamic(p: PartView) -> bool {
    match p {
        PartView::Bare(s) => has_glob_meta(s),
        PartView::Quoted(_) => false,
        PartView::Var(_) => true,
    }
}

/// Whether a word needs no work at run time.
pub open spec fn is_static(w: WordView) -> bool {
    forall|i: int| 0 <= i < w.len() ==> !is_dynamic(#[trigger] w[i])
}

/// What a part stands for, given the environment. Unset variables are empty
/// here; they are an error before this is asked.
pub open spec fn part_text(p: PartView, env: Map<Seq<char>, Seq<char>>) -> Seq<char> {
    match p {
        PartView::Bare(s) => s,
        PartView::Quoted(s) => s,
        PartView::Var(v) => if env.contains_key(v.name) {
            env[v.name]
        } else {
            Seq::empty()
        },
    }
}

/// The plain text that a word expands to.
pub open spec fn word_text(w: WordView, env: Map<Seq<char>, Seq<char>>) -> Seq<char>
    decreases w.len(),
{
    if w.len() == 0 {
        Seq::empty()
    } else {
        word_text(w.drop_last(), env) + part_text(w.last(), env)
    }
}

/// The text of a static word: no variable is in it.
pub open spec fn literal_text(w: WordView) -> Seq<char> {
    word_text(w, Map::empty())
}

/// The plan for a `run` string: direct when there is one command, and every word
/// of it is static.
pub open spec fn plan(s: Seq<char>) -> Result<PlanView, ErrorView> {
    match program(s) {
        Err(e) => Err(e),
        Ok(p) => if p.rest.len() == 0 && forall|i: int|
            0 <= i < p.first.len() ==> is_static(#[trigger] p.first[i]) {
            Ok(PlanView::Direct(Seq::new(p.first.len(), |i: int| literal_text(p.first[i]))))
        } else {
            Ok(PlanView::Shell(p))
        },
    }
}

/// Whether the text holds a glob metacharacter.
pub(crate) fn glob_meta(s: &str) -> (r: bool)
    ensures
        r == has_glob_meta(s@),
{
    let cs = text::chars(s);
    let mut i: usize = 0;
    while i < cs.len()
        invariant
            i <= cs.len(),
            cs@ == s@,
            forall|j: int| 0 <= j < i ==> !is_glob_char(#[trigger] cs@[j]),
        decreases cs.len() - i,
    {
        if cs[i] == '*' || cs[i] == '?' || cs[i] == '[' {
            assert(is_glob_char(cs@[i as int]));
            return true;
        }
        i += 1;
    }
    false
}

impl Word {
    /// Whether this word needs no run-time work: no variables, no globs.
    pub fn is_static(&self) -> (r: bool)
        ensures
            r == is_static(self@),
    {
        let mut i: usize = 0;
        while i < self.parts.len()
            invariant
                i <= self.parts.len(),
                forall|j: int| 0 <= j < i ==> !is_dynamic(#[trigger] self@[j]),
            decreases self.parts.len() - i,
        {
            let dynamic = match &self.parts[i] {
                Part::Bare(s) => glob_meta(s.as_str()),
                Part::Quoted(_) => false,
                Part::Var(_) => true,
            };
            assert(dynamic == is_dynamic(self@[i as int]));
            if dynamic {
                return false;
            }
            i += 1;
        }
        true
    }

    /// The text of a static word.
    fn literal(&self) -> (r: String)
        requires
            is_static(self@),
        ensures
            r@ == literal_text(self@),
    {
        let mut out = String::new();
        let mut i: usize = 0;
        let ghost w = self@;
        assert(w.take(0) =~= Seq::<PartView>::empty());
        while i < self.parts.len()
            invariant
                i <= self.parts.len(),
                w == self@,
                is_static(w),
                out@ == literal_text(w.take(i as int)),
            decreases self.parts.len() - i,
        {
            assert(!is_dynamic(w[i as int]));
            assert(w.take(i + 1).drop_last() =~= w.take(i as int));
            match &self.parts[i] {
                Part::Bare(s) => out.append(s.as_str()),
                Part::Quoted(s) => out.append(s.as_str()),
                Part::Var(_) => {
                    assert(false);
                },
            }
            i += 1;
        }
        assert(w.take(i as int) =~= w);
        out
    }
}

/// Parse and classify a `run` string. Unsupported constructs are errors here,
/// before anything runs.
pub fn parse(input: &str) -> (r: Result<RunPlan, TsrError>)
    ensures
        match r {
            Ok(p) => plan(input@) == Ok::<PlanView, ErrorView>(p@),
            Err(e) => plan(input@) == Err::<PlanView, ErrorView>(e@),
        },
{
    let mut lexer = Lexer::new(input);
    let program = match lexer.parse_program() {
        Ok(p) => p,
        Err(e) => return Err(e),
    };
    let ghost words = program.first@;
    if program.rest.len() > 0 {
        return Ok(RunPlan::Shell(program));
    }
    let mut argv: Vec<String> = Vec::new();
    let mut i: usize = 0;
    while i < program.first.words.len()
        invariant
            i <= program.first.words.len(),
            words == program.first@,
            program@.rest.len() == 0,
            crate::shell::program(input@) == Ok::<ProgramView, ErrorView>(program@),
            forall|j: int| 0 <= j < i ==> is_static(#[trigger] words[j]),
            text::texts(argv@) == Seq::new(i as nat, |j: int| literal_text(words[j])),
        decreases program.first.words.len() - i,
    {
        assert(words[i as int] == program.first.words@[i as int]@);
        if !program.first.words[i].is_static() {
            return Ok(RunPlan::Shell(program));
        }
        let ghost before = text::texts(argv@);
        argv.push(program.first.words[i].literal());
        assert(text::texts(argv@) =~= before.push(literal_text(words[i as int])));
        assert(text::texts(argv@) =~= Seq::new((i + 1) as nat, |j: int| literal_text(words[j])));
        i += 1;
    }
    Ok(RunPlan::Direct(argv))
}

// ---------------------------------------------------------------------------
// Variables
// ---------------------------------------------------------------------------
/// The variables that a word references, in order.
pub open spec fn word_vars(w: WordView) -> Seq<VarView>
    decreases w.len(),
{
    if w.len() == 0 {
        Seq::empty()
    } else {
        word_vars(w.drop_last()) + match w.last() {
            PartView::Var(v) => seq![v],
            _ => Seq::empty(),
        }
    }
}

/// The variables that a command references, in order.
pub open spec fn command_vars(c: CommandView) -> Seq<VarView>
    decreases c.len(),
{
    if c.len() == 0 {
        Seq::empty()
    } else {
        command_vars(c.drop_last()) + word_vars(c.last())
    }
}

/// The variables that a list of commands references, in order.
pub open spec fn commands_vars(cs: Seq<CommandView>) -> Seq<VarView>
    decreases cs.len(),
{
    if cs.len() == 0 {
        Seq::empty()
    } else {
        commands_vars(cs.drop_last()) + command_vars(cs.last())
    }
}

/// The variables that a plan references, in source order.
pub open spec fn plan_vars(p: PlanView) -> Seq<VarView> {
    match p {
        PlanView::Direct(_) => Seq::empty(),
        PlanView::Shell(p) => commands_vars(all_commands(p)),
    }
}

/// The first of the variables that is not set.
pub open spec fn first_undefined(
    vars: Seq<VarView>,
    env: Map<Seq<char>, Seq<char>>,
) -> Option<VarView>
    decreases vars.len(),
{
    if vars.len() == 0 {
        None
    } else {
        match first_undefined(vars.drop_last(), env) {
            Some(v) => Some(v),
            None => if env.contains_key(vars.last().name) {
                None
            } else {
                Some(vars.last())
            },
        }
    }
}

/// What is said of a variable that is not set.
pub open spec fn undefined_text(name: Seq<char>) -> Seq<char> {
    "'$"@ + name + "' is not defined in task env, env_file, workspace [env], or .env"@
}

/// The views of a sequence of references.
pub open spec fn var_views(vars: Seq<VarRef>) -> Seq<VarView> {
    Seq::new(vars.len(), |i: int| vars[i]@)
}

pub proof fn lemma_first_undefined_concat(
    a: Seq<VarView>,
    b: Seq<VarView>,
    env: Map<Seq<char>, Seq<char>>,
)
    ensures
        first_undefined(a + b, env) == match first_undefined(a, env) {
            Some(v) => Some(v),
            None => first_undefined(b, env),
        },
    decreases b.len(),
{
    if b.len() == 0 {
        assert(a + b =~= a);
    } else {
        assert((a + b).drop_last() =~= a + b.drop_last());
        lemma_first_undefined_concat(a, b.drop_last(), env);
    }
}

impl Clone for VarRef {
    fn clone(&self) -> (r: Self)
        ensures
            r@ == self@,
    {
        VarRef { name: self.name.clone(), span: self.span }
    }
}

/// Append the variables that a command references.
fn push_command_vars(c: &Command, out: &mut Vec<VarRef>)
    ensures
        var_views(final(out)@) == var_views(old(out)@) + command_vars(c@),
{
    let ghost start = var_views(out@);
    let ghost words = c@;
    let mut i: usize = 0;
    assert(words.take(0) =~= Seq::<WordView>::empty());
    assert(var_views(out@) =~= start + command_vars(words.take(0)));
    while i < c.words.len()
        invariant
            i <= c.words.len(),
            words == c@,
            var_views(out@) == start + command_vars(words.take(i as int)),
        decreases c.words.len() - i,
    {
        let ghost here = var_views(out@);
        let ghost parts = words[i as int];
        let mut j: usize = 0;
        assert(parts.take(0) =~= Seq::<PartView>::empty());
        assert(var_views(out@) =~= here + word_vars(parts.take(0)));
        while j < c.words[i as usize].parts.len()
            invariant
                i < c.words.len(),
                j <= c.words@[i as int].parts.len(),
                parts == c.words@[i as int]@,
                var_views(out@) == here + word_vars(parts.take(j as int)),
            decreases c.words@[i as int].parts.len() - j,
        {
            let ghost before = var_views(out@);
            assert(parts.take(j + 1).drop_last() =~= parts.take(j as int));
            assert(parts.take(j + 1).last() == c.words@[i as int].parts@[j as int]@);
            if let Part::Var(v) = &c.words[i].parts[j] {
                out.push(v.clone());
                assert(var_views(out@) =~= before.push(v@));
            }
            assert(var_views(out@) =~= here + word_vars(parts.take(j + 1)));
            j += 1;
        }
        assert(parts.take(j as int) =~= parts);
        assert(words.take(i + 1).drop_last() =~= words.take(i as int));
        assert(var_views(out@) =~= start + command_vars(words.take(i + 1)));
        i += 1;
    }
    assert(words.take(i as int) =~= words);
}

impl Program {
    /// All variable references in the program, in source order.
    pub fn referenced_vars(&self) -> (r: Vec<VarRef>)
        ensures
            var_views(r@) == commands_vars(all_commands(self@)),
    {
        let mut out: Vec<VarRef> = Vec::new();
        let ghost all = all_commands(self@);
        push_command_vars(&self.first, &mut out);
        let mut i: usize = 0;
        assert(all.take(1).drop_last() =~= Seq::<CommandView>::empty());
        assert(all.take(1).last() == self.first@);
        assert(commands_vars(Seq::<CommandView>::empty()) =~= Seq::<VarView>::empty());
        assert(var_views(out@) =~= commands_vars(all.take(1)));
        while i < self.rest.len()
            invariant
                i <= self.rest.len(),
                all == all_commands(self@),
                var_views(out@) == commands_vars(all.take(i + 1)),
            decreases self.rest.len() - i,
        {
            push_command_vars(&self.rest[i].1, &mut out);
            assert(all.take(i + 2).drop_last() =~= all.take(i + 1));
            assert(all.take(i + 2).last() == self.rest@[i as int].1@);
            i += 1;
        }
        assert(all.take(i + 1) =~= all);
        out
    }

    /// Expand every word's variables against `env`. A variable that is not set
    /// is an error, raised before anything runs. Globs are resolved later, per
    /// command, by [`ExpandedCommand::argv`].
    pub fn expand(&self, env: &EnvMap) -> (r: Result<ExecPlan, TsrError>)
        ensures
            match r {
                Ok(p) => first_undefined(commands_vars(all_commands(self@)), env@) is None && p@
                    == expanded(self@, env@),
                Err(e) => first_undefined(commands_vars(all_commands(self@)), env@) matches Some(v)
                    && e@ == ErrorView::Config(undefined_text(v.name)),
            },
    {
        let ghost all = all_commands(self@);
        let ghost m = env@;
        assert(all.take(1).drop_last() =~= Seq::<CommandView>::empty());
        assert(all.take(1).last() == self.first@);
        assert(commands_vars(Seq::<CommandView>::empty()) =~= Seq::<VarView>::empty());
        assert(commands_vars(all.take(1)) =~= command_vars(self.first@));
        let first = match expand_command(&self.first, env) {
            Ok(c) => c,
            Err(e) => {
                proof {
                    lemma_prefix_undefined(all, 1, m);
                }
                return Err(e);
            },
        };
        let mut rest: Vec<(Sep, ExpandedCommand)> = Vec::new();
        let mut i: usize = 0;
        while i < self.rest.len()
            invariant
                i <= self.rest.len(),
                all == all_commands(self@),
                m == env@,
                first_undefined(commands_vars(all.take(i + 1)), m) is None,
                rest.len() == i,
                forall|j: int|
                    0 <= j < i ==> (#[trigger] rest@[j]).0 == self.rest@[j].0 && rest@[j].1@
                        == expanded_command(self.rest@[j].1@, m),
            decreases self.rest.len() - i,
        {
            proof {
                assert(all.take(i + 2).drop_last() =~= all.take(i + 1));
                assert(all.take(i + 2).last() == self.rest@[i as int].1@);
                lemma_first_undefined_concat(
                    commands_vars(all.take(i + 1)),
                    command_vars(self.rest@[i as int].1@),
                    m,
                );
            }
            match expand_command(&self.rest[i].1, env) {
                Ok(c) => {
                    rest.push((self.rest[i].0, c));
                },
                Err(e) => {
                    proof {
                        lemma_prefix_undefined(all, i + 2, m);
                    }
                    return Err(e);
                },
            }
            i += 1;
        }
        assert(all.take(i + 1) =~= all);
        let p = ExecPlan { first, rest };
        assert(p@.rest =~= expanded(self@, env@).rest);
        Ok(p)
    }
}

/// An undefined variable among the first commands is the first of all.
proof fn lemma_prefix_undefined(all: Seq<CommandView>, n: int, env: Map<Seq<char>, Seq<char>>)
    requires
        0 <= n <= all.len(),
        first_undefined(commands_vars(all.take(n)), env) is Some,
    ensures
        first_undefined(commands_vars(all), env) == first_undefined(
            commands_vars(all.take(n)),
            env,
        ),
    decreases all.len() - n,
{
    if n == all.len() {
        assert(all.take(n) =~= all);
    } else {
        assert(all.take(n + 1).drop_last() =~= all.take(n));
        lemma_first_undefined_concat(
            commands_vars(all.take(n)),
            command_vars(all.take(n + 1).last()),
            env,
        );
        lemma_prefix_undefined(all, n + 1, env);
    }
}

impl RunPlan {
    /// The variables this plan references (none for a static argv).
    pub fn referenced_vars(&self) -> (r: Vec<VarRef>)
        ensures
            var_views(r@) == plan_vars(self@),
    {
        match self {
            RunPlan::Direct(_) => {
                let out: Vec<VarRef> = Vec::new();
                assert(var_views(out@) =~= Seq::<VarView>::empty());
                out
            },
            RunPlan::Shell(p) => p.referenced_vars(),
        }
    }
}

// ---------------------------------------------------------------------------
// Expansion
// ---------------------------------------------------------------------------
/// The text in which every glob metacharacter stands for itself.
pub open spec fn escaped(s: Seq<char>) -> Seq<char>
    decreases s.len(),
{
    if s.len() == 0 {
        Seq::empty()
    } else {
        let c = s.last();
        escaped(s.drop_last()) + if c == '?' || c == '*' || c == '[' || c == ']' {
            seq!['[', c, ']']
        } else {
            seq![c]
        }
    }
}

/// `glob::Pattern::escape` puts each `?`, `*`, `[` and `]` in brackets, and
/// leaves every other character as it is.
#[verifier::external_body]
fn escape(s: &str) -> (r: String)
    ensures
        r@ == escaped(s@),
{
    glob::Pattern::escape(s)
}

/// The glob pattern that a part stands for: only unquoted text is a pattern.
pub open spec fn part_pattern(p: PartView, env: Map<Seq<char>, Seq<char>>) -> Seq<char> {
    match p {
        PartView::Bare(s) => s,
        _ => escaped(part_text(p, env)),
    }
}

/// The glob pattern that a word stands for.
pub open spec fn word_pattern(w: WordView, env: Map<Seq<char>, Seq<char>>) -> Seq<char>
    decreases w.len(),
{
    if w.len() == 0 {
        Seq::empty()
    } else {
        word_pattern(w.drop_last(), env) + part_pattern(w.last(), env)
    }
}

/// Whether a part makes its word a pattern.
pub open spec fn is_glob_part(p: PartView) -> bool {
    p matches PartView::Bare(s) && has_glob_meta(s)
}

/// Whether a word is a pattern: some unquoted text in it has a metacharacter.
pub open spec fn is_pattern(w: WordView) -> bool {
    exists|i: int| 0 <= i < w.len() && is_glob_part(#[trigger] w[i])
}

/// The argument that a word becomes.
pub open spec fn expanded_word(w: WordView, env: Map<Seq<char>, Seq<char>>) -> ArgView {
    if is_pattern(w) {
        ArgView::Pattern { pattern: word_pattern(w, env), literal: word_text(w, env) }
    } else {
        ArgView::Literal(word_text(w, env))
    }
}

/// The arguments that a command's words become.
pub open spec fn expanded_command(c: CommandView, env: Map<Seq<char>, Seq<char>>) -> Seq<ArgView> {
    Seq::new(c.len(), |i: int| expanded_word(c[i], env))
}

/// The plan that a program becomes.
pub open spec fn expanded(p: ProgramView, env: Map<Seq<char>, Seq<char>>) -> ExecPlanView {
    ExecPlanView {
        first: expanded_command(p.first, env),
        rest: Seq::new(
            p.rest.len(),
            |i: int| (p.rest[i].0, expanded_command(p.rest[i].1, env)),
        ),
    }
}

/// The two renderings of a word: the plain text it expands to, and the glob
/// pattern it stands for. `is_pattern` says whether the pattern counts at all.
struct Rendered {
    text: String,
    pattern: String,
    is_pattern: bool,
}

fn render(word: &Word, env: &EnvMap) -> (r: Result<Rendered, TsrError>)
    ensures
        match r {
            Ok(d) => {
                &&& first_undefined(word_vars(word@), env@) is None
                &&& d.text@ == word_text(word@, env@)
                &&& d.pattern@ == word_pattern(word@, env@)
                &&& d.is_pattern == is_pattern(word@)
            },
            Err(e) => first_undefined(word_vars(word@), env@) matches Some(v) && e@
                == ErrorView::Config(undefined_text(v.name)),
        },
{
    let ghost w = word@;
    let ghost m = env@;
    let mut text = String::new();
    let mut pattern = String::new();
    let mut is_pattern = false;
    let mut i: usize = 0;
    assert(w.take(0) =~= Seq::<PartView>::empty());
    while i < word.parts.len()
        invariant
            i <= word.parts.len(),
            w == word@,
            m == env@,
            first_undefined(word_vars(w.take(i as int)), m) is None,
            text@ == word_text(w.take(i as int), m),
            pattern@ == word_pattern(w.take(i as int), m),
            is_pattern == exists|j: int| 0 <= j < i && is_glob_part(#[trigger] w[j]),
        decreases word.parts.len() - i,
    {
        proof {
            assert(w.take(i + 1).drop_last() =~= w.take(i as int));
            assert(w.take(i + 1).last() == word.parts@[i as int]@);
            assert(w[i as int] == word.parts@[i as int]@);
        }
        match &word.parts[i] {
            Part::Bare(s) => {
                text.append(s.as_str());
                pattern.append(s.as_str());
                is_pattern = is_pattern || glob_meta(s.as_str());
                assert(word_vars(w.take(i + 1)) =~= word_vars(w.take(i as int)));
            },
            Part::Quoted(s) => {
                text.append(s.as_str());
                pattern.append(escape(s.as_str()).as_str());
                assert(word_vars(w.take(i + 1)) =~= word_vars(w.take(i as int)));
            },
            Part::Var(v) => {
                proof {
                    assert(word_vars(w.take(i + 1)) =~= word_vars(w.take(i as int)).push(v@));
                    assert(word_vars(w.take(i + 1)).drop_last() =~= word_vars(w.take(i as int)));
                }
                match env.get(v.name.as_str()) {
                    Some(val) => {
                        text.append(val.as_str());
                        pattern.append(escape(val.as_str()).as_str());
                    },
                    None => {
                        proof {
                            lemma_word_prefix_undefined(w, i + 1, m);
                        }
                        return Err(
                            TsrError::Config(
                                text::join3(
                                    "'$",
                                    v.name.as_str(),
                                    "' is not defined in task env, env_file, workspace [env], or .env",
                                ),
                            ),
                        );
                    },
                }
            },
        }
        i += 1;
    }
    assert(w.take(i as int) =~= w);
    Ok(Rendered { text, pattern, is_pattern })
}

/// An undefined variable among the first parts is the first of the word.
proof fn lemma_word_prefix_undefined(w: WordView, n: int, env: Map<Seq<char>, Seq<char>>)
    requires
        0 <= n <= w.len(),
        first_undefined(word_vars(w.take(n)), env) is Some,
    ensures
        first_undefined(word_vars(w), env) == first_undefined(word_vars(w.take(n)), env),
    decreases w.len() - n,
{
    if n == w.len() {
        assert(w.take(n) =~= w);
    } else {
        assert(w.take(n + 1).drop_last() =~= w.take(n));
        match w.take(n + 1).last() {
            PartView::Var(v) => {
                lemma_first_undefined_concat(word_vars(w.take(n)), seq![v], env);
            },
            _ => {
                assert(word_vars(w.take(n + 1)) =~= word_vars(w.take(n)));
            },
        }
        lemma_word_prefix_undefined(w, n + 1, env);
    }
}

/// An undefined variable among the first words is the first of the command.
proof fn lemma_command_prefix_undefined(c: CommandView, n: int, env: Map<Seq<char>, Seq<char>>)
    requires
        0 <= n <= c.len(),
        first_undefined(command_vars(c.take(n)), env) is Some,
    ensures
        first_undefined(command_vars(c), env) == first_undefined(command_vars(c.take(n)), env),
    decreases c.len() - n,
{
    if n == c.len() {
        assert(c.take(n) =~= c);
    } else {
        assert(c.take(n + 1).drop_last() =~= c.take(n));
        lemma_first_undefined_concat(command_vars(c.take(n)), word_vars(c.take(n + 1).last()), env);
        lemma_command_prefix_undefined(c, n + 1, env);
    }
}

fn expand_command(cmd: &Command, env: &EnvMap) -> (r: Result<ExpandedCommand, TsrError>)
    ensures
        match r {
            Ok(c) => first_undefined(command_vars(cmd@), env@) is None && c@ == expanded_command(
                cmd@,
                env@,
            ),
            Err(e) => first_undefined(command_vars(cmd@), env@) matches Some(v) && e@
                == ErrorView::Config(undefined_text(v.name)),
        },
{
    let ghost words = cmd@;
    let ghost m = env@;
    let mut args: Vec<Arg> = Vec::new();
    let mut i: usize = 0;
    assert(words.take(0) =~= Seq::<WordView>::empty());
    while i < cmd.words.len()
        invariant
            i <= cmd.words.len(),
            words == cmd@,
            m == env@,
            first_undefined(command_vars(words.take(i as int)), m) is None,
            args.len() == i,
            forall|j: int| 0 <= j < i ==> (#[trigger] args@[j])@ == expanded_word(words[j], m),
        decreases cmd.words.len() - i,
    {
        proof {
            assert(words.take(i + 1).drop_last() =~= words.take(i as int));
            assert(words.take(i + 1).last() == cmd.words@[i as int]@);
            lemma_first_undefined_concat(
                command_vars(words.take(i as int)),
                word_vars(words[i as int]),
                m,
            );
        }
        match render(&cmd.words[i], env) {
            Ok(d) => {
                if d.is_pattern {
                    args.push(Arg::Pattern { pattern: d.pattern, literal: d.text });
                } else {
                    args.push(Arg::Literal(d.text));
                }
            },
            Err(e) => {
                proof {
                    lemma_command_prefix_undefined(words, i + 1, m);
                }
                return Err(e);
            },
        }
        i += 1;
    }
    assert(words.take(i as int) =~= words);
    let c = ExpandedCommand { args };
    assert(c@ =~= expanded_command(cmd@, env@));
    Ok(c)
}

// ---------------------------------------------------------------------------
// Globs
// ---------------------------------------------------------------------------
/// The text without the separators at its end.
pub open spec fn without_separators(s: Seq<char>) -> Seq<char>
    decreases s.len(),
{
    if s.len() > 0 && (s.last() == '/' || s.last() == '\\') {
        without_separators(s.drop_last())
    } else {
        s
    }
}

/// What is asked of the file system for a pattern seen from `dir`. The
/// directory is fixed text: no metacharacter in it is a pattern.
pub open spec fn glob_query(dir: Seq<char>, pattern: Seq<char>) -> Seq<char> {
    if path::is_absolute(pattern) {
        pattern
    } else {
        without_separators(escaped(dir)) + seq!['/'] + pattern
    }
}

/// The words that a pattern becomes, given the paths the file system found:
/// none of them when it found nothing. They are in order, and relative to `dir`
/// unless the pattern was absolute.
pub open spec fn glob_words(
    dir: Seq<char>,
    pattern: Seq<char>,
    found: Seq<Seq<char>>,
) -> Seq<Seq<char>> {
    text::in_order(
        Seq::new(
            found.len(),
            |i: int|
                if path::is_absolute(pattern) {
                    path::slashed(found[i])
                } else {
                    path::relative(dir, found[i])
                },
        ),
    )
}

/// The paths found for the argument at `i`: none when nothing was asked or the
/// pattern could not be read.
pub open spec fn found_at(found: Seq<Option<Vec<String>>>, i: int) -> Seq<Seq<char>> {
    if 0 <= i < found.len() && found[i] is Some {
        text::texts(found[i]->0@)
    } else {
        Seq::empty()
    }
}

/// The words that an argument becomes. A pattern that matches nothing stays as
/// it was written.
pub open spec fn arg_words(dir: Seq<char>, arg: ArgView, found: Seq<Seq<char>>) -> Seq<Seq<char>> {
    match arg {
        ArgView::Literal(s) => seq![s],
        ArgView::Pattern { pattern, literal } => if found.len() == 0 {
            seq![literal]
        } else {
            glob_words(dir, pattern, found)
        },
    }
}

/// The argv of a command, given what the file system found for each argument.
pub open spec fn argv_words(
    dir: Seq<char>,
    args: Seq<ArgView>,
    found: Seq<Option<Vec<String>>>,
) -> Seq<Seq<char>>
    decreases args.len(),
{
    if args.len() == 0 {
        Seq::empty()
    } else {
        argv_words(dir, args.drop_last(), found) + arg_words(
            dir,
            args.last(),
            found_at(found, args.len() - 1),
        )
    }
}

/// The question to the file system for `pattern`, seen from `dir`.
fn query(dir: &str, pattern: &str) -> (r: String)
    ensures
        r@ == glob_query(dir@, pattern@),
{
    if path::absolute(pattern) {
        return pattern.to_string();
    }
    let base = text::chars(escape(dir).as_str());
    let mut end: usize = base.len();
    assert(base@.take(end as int) =~= base@);
    while end > 0 && (base[end - 1] == '/' || base[end - 1] == '\\')
        invariant
            end <= base.len(),
            without_separators(base@) == without_separators(base@.take(end as int)),
        decreases end,
    {
        assert(base@.take(end as int).drop_last() =~= base@.take(end - 1));
        end -= 1;
    }
    assert(base@.subrange(0, end as int) =~= base@.take(end as int));
    let head = text::slice(&base, 0, end);
    let sep = text::unit('/');
    text::join3(head.as_str(), sep.as_str(), pattern)
}

/// The words for the paths that a pattern matched.
fn glob_matches(dir: &str, pattern: &str, found: &Vec<String>) -> (r: Vec<String>)
    ensures
        text::texts(r@) == glob_words(dir@, pattern@, text::texts(found@)),
{
    let absolute = path::absolute(pattern);
    let mut out: Vec<String> = Vec::new();
    let mut i: usize = 0;
    while i < found.len()
        invariant
            i <= found.len(),
            absolute == path::is_absolute(pattern@),
            out.len() == i,
            forall|j: int|
                0 <= j < i ==> (#[trigger] out@[j])@ == if absolute {
                    path::slashed(found@[j]@)
                } else {
                    path::relative(dir@, found@[j]@)
                },
        decreases found.len() - i,
    {
        if absolute {
            out.push(path::to_slash(found[i].as_str()));
        } else {
            out.push(path::rel_to_slash(dir, found[i].as_str()));
        }
        i += 1;
    }
    assert(text::texts(out@) =~= Seq::new(
        found@.len(),
        |i: int|
            if path::is_absolute(pattern@) {
                path::slashed(text::texts(found@)[i])
            } else {
                path::relative(dir@, text::texts(found@)[i])
            },
    ));
    text::sort(out)
}

impl ExpandedCommand {
    /// What to ask the file system for each argument: nothing for plain text.
    pub fn glob_queries(&self, dir: &str) -> (r: Vec<Option<String>>)
        ensures
            r.len() == self@.len(),
            forall|i: int|
                0 <= i < r.len() ==> match self@[i] {
                    ArgView::Literal(_) => (#[trigger] r@[i]) is None,
                    ArgView::Pattern { pattern, .. } => r@[i] matches Some(q) && q@ == glob_query(
                        dir@,
                        pattern,
                    ),
                },
    {
        let mut out: Vec<Option<String>> = Vec::new();
        let mut i: usize = 0;
        while i < self.args.len()
            invariant
                i <= self.args.len(),
                out.len() == i,
                forall|j: int|
                    0 <= j < i ==> match self@[j] {
                        ArgView::Literal(_) => (#[trigger] out@[j]) is None,
                        ArgView::Pattern { pattern, .. } => out@[j] matches Some(q) && q@
                            == glob_query(dir@, pattern),
                    },
            decreases self.args.len() - i,
        {
            assert(self@[i as int] == self.args@[i as int]@);
            match &self.args[i] {
                Arg::Literal(_) => out.push(None),
                Arg::Pattern { pattern, .. } => out.push(Some(query(dir, pattern.as_str()))),
            }
            i += 1;
        }
        out
    }

    /// The concrete argv, given what [`ExpandedCommand::glob_queries`] found at
    /// the moment the command runs: a matching pattern fans one word out into
    /// its matches.
    pub fn argv(&self, dir: &str, found: &Vec<Option<Vec<String>>>) -> (r: Vec<String>)
        ensures
            text::texts(r@) == argv_words(dir@, self@, found@),
    {
        let ghost args = self@;
        let mut argv: Vec<String> = Vec::new();
        let mut i: usize = 0;
        assert(args.take(0) =~= Seq::<ArgView>::empty());
        assert(text::texts(argv@) =~= Seq::<Seq<char>>::empty());
        while i < self.args.len()
            invariant
                i <= self.args.len(),
                args == self@,
                text::texts(argv@) == argv_words(dir@, args.take(i as int), found@),
            decreases self.args.len() - i,
        {
            let ghost before = text::texts(argv@);
            proof {
                assert(args.take(i + 1).drop_last() =~= args.take(i as int));
                assert(args.take(i + 1).last() == self.args@[i as int]@);
            }
            match &self.args[i] {
                Arg::Literal(s) => {
                    argv.push(s.clone());
                    assert(text::texts(argv@) =~= before + seq![s@]);
                },
                Arg::Pattern { pattern, literal } => {
                    let mut words: Vec<String> = Vec::new();
                    if i < found.len() {
                        if let Some(paths) = &found[i] {
                            if paths.len() > 0 {
                                words = glob_matches(dir, pattern.as_str(), paths);
                                proof {
                                    lemma_glob_words_len(
                                        dir@,
                                        pattern@,
                                        text::texts(paths@),
                                    );
                                    assert(text::texts(words@).len() == words@.len());
                                }
                            }
                        }
                    }
                    if words.len() == 0 {
                        words.push(literal.clone());
                        assert(text::texts(words@) =~= seq![literal@]);
                    }
                    let ghost fan = text::texts(words@);
                    argv.append(&mut words);
                    assert(text::texts(argv@) =~= before + fan);
                },
            }
            i += 1;
        }
        assert(args.take(i as int) =~= args);
        argv
    }
}

/// A pattern becomes as many words as paths were found.
proof fn lemma_glob_words_len(dir: Seq<char>, pattern: Seq<char>, found: Seq<Seq<char>>)
    ensures
        glob_words(dir, pattern, found).len() == found.len(),
{
    let v = Seq::new(
        found.len(),
        |i: int|
            if path::is_absolute(pattern) {
                path::slashed(found[i])
            } else {
                path::relative(dir, found[i])
            },
    );
    text::lemma_in_order_len(v);
}

// ---------------------------------------------------------------------------
// Sequencing
// ---------------------------------------------------------------------------
impl Sep {
    /// Whether the command after this separator runs, given the previous
    /// command's exit code.
    pub open spec fn spec_proceeds(self, prev: i32) -> bool {
        match self {
            Sep::And => prev == 0,
            Sep::Or => prev != 0,
            Sep::Semi => true,
        }
    }

    /// Whether the command after this separator runs, given the previous
    /// command's exit code. This is the one definition of the sequencing rule.
    pub fn proceeds(self, prev: i32) -> (r: bool)
        ensures
            r == self.spec_proceeds(prev),
    {
        match self {
            Sep::And => prev == 0,
            Sep::Or => prev != 0,
            Sep::Semi => true,
        }
    }
}

// ---------------------------------------------------------------------------
// Diagnostics
// ---------------------------------------------------------------------------
/// `n` copies of `c`.
pub open spec fn copies(c: char, n: int) -> Seq<char> {
    Seq::new(n as nat, |i: int| c)
}

/// The number of characters that a span underlines: at least one.
pub open spec fn span_width(span: Span) -> int {
    if span.end > span.start {
        span.end - span.start
    } else {
        1
    }
}

/// The `run` line, and the carets under the span.
pub open spec fn caret_text(src: Seq<char>, span: Span) -> Seq<char> {
    "  run = \""@ + src + "\"\n"@ + copies(' ', 9 + span.start) + copies('^', span_width(span))
}

/// Render a source span as a caret line under `run = "<src>"`.
pub fn caret(src: &str, span: Span) -> (r: String)
    ensures
        r@ == caret_text(src@, span),
{
    let width: usize = if span.end > span.start {
        span.end - span.start
    } else {
        1
    };
    let mut out = "  run = \"".to_string();
    out.append(src);
    out.append("\"\n");
    let lead = text::repeat(' ', 9);
    let pad = text::repeat(' ', span.start);
    out.append(lead.as_str());
    out.append(pad.as_str());
    assert(lead@ + pad@ =~= copies(' ', 9 + span.start));
    assert(out@ =~= "  run = \""@ + src@ + "\"\n"@ + (lead@ + pad@));
    out.append(text::repeat('^', width).as_str());
    out
}

// ---------------------------------------------------------------------------
// Laws
// ---------------------------------------------------------------------------
/// Whether a reference points at the text it came from: a `$` with a plain name
/// behind it, bare or in braces.
pub open spec fn points_at_source(s: Seq<char>, v: VarView) -> bool {
    &&& 0 <= v.start < v.end <= s.len()
    &&& s[v.start] == '$'
    &&& is_var_name(v.name)
    &&& (s.subrange(v.start + 1, v.end) == v.name || s.subrange(v.start + 1, v.end) == seq!['{']
        + v.name + seq!['}'])
}

spec fn word_points(s: Seq<char>, w: WordView) -> bool {
    forall|i: int| 0 <= i < w.len() ==> part_points(s, #[trigger] w[i])
}

spec fn part_points(s: Seq<char>, p: PartView) -> bool {
    p matches PartView::Var(v) ==> points_at_source(s, v)
}

spec fn command_points(s: Seq<char>, c: CommandView) -> bool {
    forall|i: int| 0 <= i < c.len() ==> word_points(s, #[trigger] c[i])
}

proof fn lemma_name_end_all(s: Seq<char>, from: int)
    requires
        0 <= from <= s.len(),
    ensures
        from <= name_end(s, from) <= s.len(),
        forall|i: int| from <= i < name_end(s, from) ==> text::is_name_char(#[trigger] s[i]),
    decreases s.len() - from,
{
    if from < s.len() && text::is_name_char(s[from]) {
        lemma_name_end_all(s, from + 1);
    }
}

proof fn lemma_dollar_points(s: Seq<char>, pos: int)
    requires
        0 <= pos < s.len(),
        s[pos] == '$',
    ensures
        dollar(s, pos) matches Ok(Some(v)) ==> points_at_source(s, v),
{
    let next = pos + 1;
    if next < s.len() {
        lemma_name_end(s, next);
        lemma_name_end_all(s, next);
        text::lemma_index_from(s, '}', next);
        if s[next] == '{' {
            let close = text::index_from(s, '}', next + 1);
            text::lemma_index_from(s, '}', next + 1);
            if close < s.len() {
                assert(s.subrange(pos + 1, close + 1) =~= seq!['{'] + s.subrange(next + 1, close)
                    + seq!['}']);
            }
        } else if s[next] == '_' || text::is_letter(s[next]) {
            let end = name_end(s, next);
            let name = s.subrange(next, end);
            assert(name[0] == s[next]);
            assert forall|i: int| 0 <= i < name.len() implies text::is_name_char(
                #[trigger] name[i],
            ) by {
                assert(name[i] == s[next + i]);
            }
        }
    }
}

proof fn lemma_push_points(s: Seq<char>, w: WordView, p: PartView)
    requires
        word_points(s, w),
        part_points(s, p),
    ensures
        word_points(s, push_part(w, p)),
{
}

proof fn lemma_double_quoted_points(s: Seq<char>, pos: int, w: WordView)
    requires
        word_points(s, w),
    ensures
        double_quoted(s, pos, w) matches Ok((r, _)) ==> word_points(s, r),
    decreases s.len() - pos,
{
    if 0 <= pos < s.len() && s[pos] != '"' {
        if s[pos] == '$' {
            lemma_dollar_points(s, pos);
            lemma_dollar_advances(s, pos);
            match dollar(s, pos) {
                Err(e) => {},
                Ok(None) => {
                    lemma_push_points(s, w, PartView::Quoted(seq!['$']));
                    lemma_double_quoted_points(
                        s,
                        pos + 1,
                        push_part(w, PartView::Quoted(seq!['$'])),
                    );
                },
                Ok(Some(v)) => {
                    lemma_push_points(s, w, PartView::Var(v));
                    lemma_double_quoted_points(s, v.end, push_part(w, PartView::Var(v)));
                },
            }
        } else if s[pos] != '`' {
            lemma_push_points(s, w, PartView::Quoted(seq![s[pos]]));
            lemma_double_quoted_points(s, pos + 1, push_part(w, PartView::Quoted(seq![s[pos]])));
        }
    }
}

proof fn lemma_command_points(s: Seq<char>, pos: int, words: CommandView, cur: Option<WordView>)
    requires
        command_points(s, words),
        cur matches Some(w) ==> word_points(s, w),
    ensures
        command(s, pos, words, cur) matches Ok((c, _)) ==> command_points(s, c),
    decreases s.len() - pos,
{
    let w = match cur {
        Some(w) => w,
        None => Seq::<PartView>::empty(),
    };
    if pos < 0 || pos >= s.len() || separator(s, pos) is Some {
    } else if text::is_space(s[pos]) {
        lemma_command_points(s, pos + 1, with_word(words, cur), None);
    } else if s[pos] == '\'' {
        let close = text::index_from(s, '\'', pos + 1);
        text::lemma_index_from(s, '\'', pos + 1);
        if close < s.len() {
            let p = PartView::Quoted(s.subrange(pos + 1, close));
            lemma_push_points(s, w, p);
            lemma_command_points(s, close + 1, words, Some(push_part(w, p)));
        }
    } else if s[pos] == '"' {
        lemma_double_quoted_advances(s, pos + 1, w);
        lemma_double_quoted_points(s, pos + 1, w);
        match double_quoted(s, pos + 1, w) {
            Err(e) => {},
            Ok((quoted, end)) => lemma_command_points(s, end, words, Some(quoted)),
        }
    } else if s[pos] == '$' {
        lemma_dollar_advances(s, pos);
        lemma_dollar_points(s, pos);
        match dollar(s, pos) {
            Err(e) => {},
            Ok(None) => {
                let p = PartView::Bare(seq!['$']);
                lemma_push_points(s, w, p);
                lemma_command_points(s, pos + 1, words, Some(push_part(w, p)));
            },
            Ok(Some(v)) => {
                lemma_push_points(s, w, PartView::Var(v));
                lemma_command_points(s, v.end, words, Some(push_part(w, PartView::Var(v))));
            },
        }
    } else if rejected(s[pos]) is None {
        let p = PartView::Bare(seq![s[pos]]);
        lemma_push_points(s, w, p);
        lemma_command_points(s, pos + 1, words, Some(push_part(w, p)));
    }
}

proof fn lemma_sequence_shape(
    s: Seq<char>,
    pos: int,
    commands: Seq<CommandView>,
    seps: Seq<Sep>,
)
    requires
        0 <= pos <= s.len(),
        forall|i: int| 0 <= i < commands.len() ==> command_points(s, #[trigger] commands[i]),
        commands.len() == seps.len(),
    ensures
        sequence(s, pos, commands, seps) matches Ok((cs, ss)) ==> {
            &&& cs.len() == ss.len() + 1
            &&& forall|i: int| 0 <= i < cs.len() ==> command_points(s, #[trigger] cs[i])
        },
    decreases s.len() - pos,
{
    lemma_command_advances(s, pos, Seq::empty(), None);
    lemma_command_points(s, pos, Seq::empty(), None);
    match command(s, pos, Seq::empty(), None) {
        Err(e) => {},
        Ok((c, end)) => match separator(s, end) {
            None => {},
            Some((sep, next)) => {
                lemma_sequence_shape(s, next, commands.push(c), seps.push(sep));
            },
        },
    }
}

proof fn lemma_word_vars_point(s: Seq<char>, w: WordView)
    requires
        word_points(s, w),
    ensures
        forall|i: int|
            0 <= i < word_vars(w).len() ==> points_at_source(s, #[trigger] word_vars(w)[i]),
    decreases w.len(),
{
    if w.len() > 0 {
        let front = word_vars(w.drop_last());
        lemma_word_vars_point(s, w.drop_last());
        assert(part_points(s, w.last()));
        assert forall|i: int| 0 <= i < word_vars(w).len() implies points_at_source(
            s,
            #[trigger] word_vars(w)[i],
        ) by {
            if i < front.len() {
                assert(word_vars(w)[i] == front[i]);
            }
        }
    }
}

proof fn lemma_command_vars_point(s: Seq<char>, c: CommandView)
    requires
        command_points(s, c),
    ensures
        forall|i: int|
            0 <= i < command_vars(c).len() ==> points_at_source(s, #[trigger] command_vars(c)[i]),
    decreases c.len(),
{
    if c.len() > 0 {
        lemma_command_vars_point(s, c.drop_last());
        assert(word_points(s, c.last()));
        lemma_word_vars_point(s, c.last());
        let front = command_vars(c.drop_last());
        assert forall|i: int| 0 <= i < command_vars(c).len() implies points_at_source(
            s,
            #[trigger] command_vars(c)[i],
        ) by {
            if i < front.len() {
                assert(command_vars(c)[i] == front[i]);
            } else {
                assert(command_vars(c)[i] == word_vars(c.last())[i - front.len()]);
            }
        }
    }
}

proof fn lemma_commands_vars_point(s: Seq<char>, cs: Seq<CommandView>)
    requires
        forall|i: int| 0 <= i < cs.len() ==> command_points(s, #[trigger] cs[i]),
    ensures
        forall|i: int|
            0 <= i < commands_vars(cs).len() ==> points_at_source(
                s,
                #[trigger] commands_vars(cs)[i],
            ),
    decreases cs.len(),
{
    if cs.len() > 0 {
        lemma_commands_vars_point(s, cs.drop_last());
        assert(command_points(s, cs.last()));
        lemma_command_vars_point(s, cs.last());
        let front = commands_vars(cs.drop_last());
        assert forall|i: int| 0 <= i < commands_vars(cs).len() implies points_at_source(
            s,
            #[trigger] commands_vars(cs)[i],
        ) by {
            if i < front.len() {
                assert(commands_vars(cs)[i] == front[i]);
            } else {
                assert(commands_vars(cs)[i] == command_vars(cs.last())[i - front.len()]);
            }
        }
    }
}

/// Every variable that a plan references has a span that points at the `$NAME`
/// or `${NAME}` in the `run` string it was parsed from.
pub proof fn law_spans_point_at_references(s: Seq<char>)
    ensures
        plan(s) matches Ok(p) ==> forall|i: int|
            0 <= i < plan_vars(p).len() ==> points_at_source(s, #[trigger] plan_vars(p)[i]),
{
    lemma_sequence_shape(s, 0, Seq::empty(), Seq::empty());
    if let Ok(p) = program(s) {
        let (cs, ss) = sequence(s, 0, Seq::empty(), Seq::empty())->Ok_0;
        assert(all_commands(p) =~= cs);
        lemma_commands_vars_point(s, cs);
    }
}

/// How the text at a position is quoted.
pub enum Quoting {
    Bare,
    Single,
    Double,
}

/// How the text behind the first `n` characters is quoted: a quote opens, and the
/// next one of its kind closes.
pub open spec fn quoting(s: Seq<char>, n: int) -> Quoting
    decreases n,
{
    if n <= 0 {
        Quoting::Bare
    } else {
        match quoting(s, n - 1) {
            Quoting::Bare => if s[n - 1] == '\'' {
                Quoting::Single
            } else if s[n - 1] == '"' {
                Quoting::Double
            } else {
                Quoting::Bare
            },
            Quoting::Single => if s[n - 1] == '\'' {
                Quoting::Bare
            } else {
                Quoting::Single
            },
            Quoting::Double => if s[n - 1] == '"' {
                Quoting::Bare
            } else {
                Quoting::Double
            },
        }
    }
}

/// Whether a `$NAME` or `${NAME}` stands in the source, outside single quotes.
pub open spec fn is_reference(s: Seq<char>, v: VarView) -> bool {
    &&& 0 <= v.start < s.len()
    &&& s[v.start] == '$'
    &&& !(quoting(s, v.start) is Single)
    &&& dollar(s, v.start) == Ok::<Option<VarView>, ErrorView>(Some(v))
}

/// The references from `pos` on, where the text is in double quotes or in none.
spec fn references(s: Seq<char>, pos: int, double: bool) -> Seq<VarView>
    decreases s.len() - pos,
{
    if pos < 0 || pos >= s.len() {
        Seq::empty()
    } else if s[pos] == '\'' && !double {
        let close = text::index_from(s, '\'', pos + 1);
        proof {
            text::lemma_index_from(s, '\'', pos + 1);
        }
        if close >= s.len() {
            Seq::empty()
        } else {
            references(s, close + 1, false)
        }
    } else if s[pos] == '"' {
        references(s, pos + 1, !double)
    } else if s[pos] == '$' {
        proof {
            lemma_dollar_advances(s, pos);
        }
        match dollar(s, pos) {
            Ok(Some(v)) => seq![v] + references(s, v.end, double),
            _ => references(s, pos + 1, double),
        }
    } else {
        references(s, pos + 1, double)
    }
}

proof fn lemma_quoting_stays(s: Seq<char>, from: int, to: int)
    requires
        0 <= from <= to <= s.len(),
        forall|i: int|
            from <= i < to ==> #[trigger] s[i] != '\'' && (s[i] != '"' || quoting(s, from) is Single),
    ensures
        quoting(s, to) == quoting(s, from),
    decreases to - from,
{
    if from < to {
        lemma_quoting_stays(s, from, to - 1);
        assert(s[to - 1] != '\'');
    }
}

/// Nothing inside a reference is a quote, or starts another.
proof fn lemma_reference_is_plain(s: Seq<char>, pos: int)
    requires
        0 <= pos < s.len(),
        s[pos] == '$',
    ensures
        dollar(s, pos) matches Ok(Some(v)) ==> {
            &&& v.start == pos
            &&& pos + 1 < v.end <= s.len()
            &&& forall|i: int|
                pos < i < v.end ==> #[trigger] s[i] != '$' && s[i] != '\'' && s[i] != '"'
        },
{
    lemma_dollar_advances(s, pos);
    let next = pos + 1;
    if let Ok(Some(v)) = dollar(s, pos) {
        if s[next] == '{' {
            text::lemma_index_from(s, '}', next + 1);
            let close = text::index_from(s, '}', next + 1);
            assert forall|i: int| pos < i < v.end implies #[trigger] s[i] != '$' && s[i] != '\''
                && s[i] != '"' by {
                if next < i < close {
                    assert(text::is_name_char(v.name[i - next - 1]));
                }
            }
        } else {
            lemma_name_end_all(s, next);
            assert forall|i: int| pos < i < v.end implies #[trigger] s[i] != '$' && s[i] != '\''
                && s[i] != '"' by {
                assert(text::is_name_char(s[i]));
            }
        }
    }
}

/// The references from a position on: each once, in order, and none in another.
spec fn lists_references(s: Seq<char>, pos: int, vars: Seq<VarView>) -> bool {
    &&& forall|v: VarView| #[trigger] vars.contains(v) <==> pos <= v.start && is_reference(s, v)
    &&& forall|i: int, j: int|
        0 <= i < j < vars.len() ==> (#[trigger] vars[i]).end <= (#[trigger] vars[j]).start
}

proof fn lemma_references(s: Seq<char>, pos: int, double: bool)
    requires
        0 <= pos <= s.len(),
        quoting(s, pos) == (if double {
            Quoting::Double
        } else {
            Quoting::Bare
        }),
    ensures
        lists_references(s, pos, references(s, pos, double)),
    decreases s.len() - pos,
{
    let r = references(s, pos, double);
    if pos < s.len() {
        if s[pos] == '\'' && !double {
            let close = text::index_from(s, '\'', pos + 1);
            text::lemma_index_from(s, '\'', pos + 1);
            assert(quoting(s, pos + 1) is Single);
            assert forall|v: VarView| pos <= v.start < close implies !(#[trigger] is_reference(
                s,
                v,
            )) by {
                if v.start > pos {
                    lemma_quoting_stays(s, pos + 1, v.start);
                }
            }
            if close < s.len() {
                lemma_quoting_stays(s, pos + 1, close);
                assert(quoting(s, close + 1) is Bare);
                lemma_references(s, close + 1, false);
                lemma_passed_over(s, pos, close + 1, r);
            } else {
                assert(!(exists|v: VarView| #[trigger] r.contains(v)));
                assert forall|v: VarView| #[trigger] r.contains(v) <==> pos <= v.start
                    && is_reference(s, v) by {}
            }
        } else if s[pos] == '"' {
            assert(quoting(s, pos + 1) == (if double {
                Quoting::Bare
            } else {
                Quoting::Double
            }));
            lemma_references(s, pos + 1, !double);
            lemma_passed_over(s, pos, pos + 1, r);
        } else if s[pos] == '$' && (dollar(s, pos) matches Ok(Some(_))) {
            let v = dollar(s, pos)->Ok_0->0;
            lemma_reference_is_plain(s, pos);
            lemma_quoting_stays(s, pos, v.end);
            lemma_references(s, v.end, double);
            let rest = references(s, v.end, double);
            assert(r == seq![v] + rest);
            assert forall|x: VarView| #[trigger] r.contains(x) <==> pos <= x.start && is_reference(
                s,
                x,
            ) by {
                if r.contains(x) {
                    let k = choose|k: int| 0 <= k < r.len() && r[k] == x;
                    if k > 0 {
                        assert(rest[k - 1] == x);
                        assert(rest.contains(x));
                    }
                }
                if pos <= x.start && is_reference(s, x) {
                    if x.start == pos {
                        assert(r[0] == x);
                    } else {
                        if x.start < v.end {
                            assert(s[x.start] != '$');
                        }
                        assert(rest.contains(x));
                        let k = choose|k: int| 0 <= k < rest.len() && rest[k] == x;
                        assert(r[k + 1] == x);
                    }
                }
            }
            assert forall|i: int, j: int| 0 <= i < j < r.len() implies (#[trigger] r[i]).end <= (
            #[trigger] r[j]).start by {
                assert(r[j] == rest[j - 1]);
                assert(rest.contains(rest[j - 1]));
                if i > 0 {
                    assert(r[i] == rest[i - 1]);
                }
            }
        } else {
            assert(quoting(s, pos + 1) == quoting(s, pos));
            lemma_references(s, pos + 1, double);
            lemma_passed_over(s, pos, pos + 1, r);
        }
    }
}

/// Where no reference starts before `next`, the list is the same.
proof fn lemma_passed_over(s: Seq<char>, pos: int, next: int, vars: Seq<VarView>)
    requires
        0 <= pos < next <= s.len(),
        lists_references(s, next, vars),
        forall|v: VarView| pos <= v.start < next ==> !(#[trigger] is_reference(s, v)),
    ensures
        lists_references(s, pos, vars),
{
    assert forall|v: VarView| #[trigger] vars.contains(v) <==> pos <= v.start && is_reference(
        s,
        v,
    ) by {}
}

proof fn lemma_push_part_vars(w: WordView, p: PartView)
    ensures
        word_vars(push_part(w, p)) == word_vars(w) + match p {
            PartView::Var(v) => seq![v],
            _ => Seq::empty(),
        },
{
    let r = push_part(w, p);
    assert(r.drop_last() =~= w || (w.len() > 0 && r.drop_last() =~= w.drop_last()));
    assert(word_vars(r) =~= word_vars(w) + match p {
        PartView::Var(v) => seq![v],
        _ => Seq::empty(),
    });
}

proof fn lemma_double_quoted_vars(s: Seq<char>, pos: int, w: WordView)
    requires
        0 <= pos <= s.len(),
    ensures
        double_quoted(s, pos, w) matches Ok((q, end)) ==> word_vars(q) + references(s, end, false)
            == word_vars(w) + references(s, pos, true),
    decreases s.len() - pos,
{
    if pos < s.len() && s[pos] != '"' {
        if s[pos] == '$' {
            lemma_dollar_advances(s, pos);
            match dollar(s, pos) {
                Err(e) => {},
                Ok(None) => {
                    let p = PartView::Quoted(seq!['$']);
                    lemma_push_part_vars(w, p);
                    lemma_double_quoted_vars(s, pos + 1, push_part(w, p));
                },
                Ok(Some(v)) => {
                    let p = PartView::Var(v);
                    lemma_push_part_vars(w, p);
                    lemma_double_quoted_vars(s, v.end, push_part(w, p));
                    assert(word_vars(w) + seq![v] + references(s, v.end, true) =~= word_vars(w) + (
                    seq![v] + references(s, v.end, true)));
                },
            }
        } else {
            let p = PartView::Quoted(seq![s[pos]]);
            lemma_push_part_vars(w, p);
            lemma_double_quoted_vars(s, pos + 1, push_part(w, p));
        }
    }
}

proof fn lemma_with_word_vars(words: CommandView, cur: Option<WordView>)
    ensures
        command_vars(with_word(words, cur)) == command_vars(words) + match cur {
            Some(w) => word_vars(w),
            None => Seq::empty(),
        },
{
    if let Some(w) = cur {
        assert(with_word(words, cur).drop_last() =~= words);
    }
    assert(command_vars(with_word(words, cur)) =~= command_vars(words) + match cur {
        Some(w) => word_vars(w),
        None => Seq::empty(),
    });
}

proof fn lemma_command_reads_vars(
    s: Seq<char>,
    pos: int,
    words: CommandView,
    cur: Option<WordView>,
)
    requires
        0 <= pos <= s.len(),
    ensures
        command(s, pos, words, cur) matches Ok((c, end)) ==> command_vars(c) + references(
            s,
            end,
            false,
        ) == command_vars(with_word(words, cur)) + references(s, pos, false),
    decreases s.len() - pos,
{
    let w = match cur {
        Some(w) => w,
        None => Seq::<PartView>::empty(),
    };
    let here = command_vars(words);
    lemma_with_word_vars(words, cur);
    assert(command_vars(with_word(words, cur)) =~= here + word_vars(w));
    if pos >= s.len() || separator(s, pos) is Some {
    } else if text::is_space(s[pos]) {
        lemma_with_word_vars(with_word(words, cur), None);
        lemma_command_reads_vars(s, pos + 1, with_word(words, cur), None);
    } else if s[pos] == '\'' {
        let close = text::index_from(s, '\'', pos + 1);
        text::lemma_index_from(s, '\'', pos + 1);
        if close < s.len() {
            let p = PartView::Quoted(s.subrange(pos + 1, close));
            lemma_push_part_vars(w, p);
            lemma_with_word_vars(words, Some(push_part(w, p)));
            lemma_command_reads_vars(s, close + 1, words, Some(push_part(w, p)));
        }
    } else if s[pos] == '"' {
        lemma_double_quoted_advances(s, pos + 1, w);
        lemma_double_quoted_vars(s, pos + 1, w);
        if let Ok((q, end)) = double_quoted(s, pos + 1, w) {
            lemma_with_word_vars(words, Some(q));
            lemma_command_reads_vars(s, end, words, Some(q));
            assert(here + word_vars(q) + references(s, end, false) =~= here + (word_vars(q)
                + references(s, end, false)));
            assert(here + word_vars(w) + references(s, pos, false) =~= here + (word_vars(w)
                + references(s, pos + 1, true)));
        }
    } else if s[pos] == '$' {
        lemma_dollar_advances(s, pos);
        match dollar(s, pos) {
            Err(e) => {},
            Ok(None) => {
                let p = PartView::Bare(seq!['$']);
                lemma_push_part_vars(w, p);
                lemma_with_word_vars(words, Some(push_part(w, p)));
                lemma_command_reads_vars(s, pos + 1, words, Some(push_part(w, p)));
            },
            Ok(Some(v)) => {
                let p = PartView::Var(v);
                lemma_push_part_vars(w, p);
                lemma_with_word_vars(words, Some(push_part(w, p)));
                lemma_command_reads_vars(s, v.end, words, Some(push_part(w, p)));
                assert(here + (word_vars(w) + seq![v]) + references(s, v.end, false) =~= here
                    + word_vars(w) + (seq![v] + references(s, v.end, false)));
            },
        }
    } else if rejected(s[pos]) is None {
        let p = PartView::Bare(seq![s[pos]]);
        lemma_push_part_vars(w, p);
        lemma_with_word_vars(words, Some(push_part(w, p)));
        lemma_command_reads_vars(s, pos + 1, words, Some(push_part(w, p)));
    }
}

proof fn lemma_command_stops(s: Seq<char>, pos: int, words: CommandView, cur: Option<WordView>)
    requires
        0 <= pos <= s.len(),
    ensures
        command(s, pos, words, cur) matches Ok((_, end)) ==> end >= s.len() || separator(s, end)
            is Some,
    decreases s.len() - pos,
{
    let w = match cur {
        Some(w) => w,
        None => Seq::<PartView>::empty(),
    };
    if pos >= s.len() || separator(s, pos) is Some {
    } else if text::is_space(s[pos]) {
        lemma_command_stops(s, pos + 1, with_word(words, cur), None);
    } else if s[pos] == '\'' {
        let close = text::index_from(s, '\'', pos + 1);
        text::lemma_index_from(s, '\'', pos + 1);
        if close < s.len() {
            let p = PartView::Quoted(s.subrange(pos + 1, close));
            lemma_command_stops(s, close + 1, words, Some(push_part(w, p)));
        }
    } else if s[pos] == '"' {
        lemma_double_quoted_advances(s, pos + 1, w);
        if let Ok((q, end)) = double_quoted(s, pos + 1, w) {
            lemma_command_stops(s, end, words, Some(q));
        }
    } else if s[pos] == '$' {
        lemma_dollar_advances(s, pos);
        match dollar(s, pos) {
            Err(e) => {},
            Ok(None) => {
                let p = PartView::Bare(seq!['$']);
                lemma_command_stops(s, pos + 1, words, Some(push_part(w, p)));
            },
            Ok(Some(v)) => {
                lemma_command_stops(s, v.end, words, Some(push_part(w, PartView::Var(v))));
            },
        }
    } else if rejected(s[pos]) is None {
        let p = PartView::Bare(seq![s[pos]]);
        lemma_command_stops(s, pos + 1, words, Some(push_part(w, p)));
    }
}

proof fn lemma_sequence_vars(s: Seq<char>, pos: int, commands: Seq<CommandView>, seps: Seq<Sep>)
    requires
        0 <= pos <= s.len(),
    ensures
        sequence(s, pos, commands, seps) matches Ok((cs, _)) ==> commands_vars(cs)
            == commands_vars(commands) + references(s, pos, false),
    decreases s.len() - pos,
{
    let none = Seq::<WordView>::empty();
    lemma_command_advances(s, pos, none, None);
    lemma_command_reads_vars(s, pos, none, None);
    lemma_command_stops(s, pos, none, None);
    if let Ok((c, end)) = command(s, pos, none, None) {
        assert(command_vars(with_word(none, None)) =~= Seq::<VarView>::empty());
        assert(command_vars(c) + references(s, end, false) =~= references(s, pos, false));
        assert(commands.push(c).drop_last() =~= commands);
        let front = commands_vars(commands);
        assert(commands_vars(commands.push(c)) =~= front + command_vars(c));
        match separator(s, end) {
            None => {
                assert(references(s, end, false) =~= Seq::<VarView>::empty());
                assert(front + command_vars(c) =~= front + references(s, pos, false));
            },
            Some((sep, next)) => {
                reveal_with_fuel(references, 3);
                assert(references(s, end, false) == references(s, next, false));
                lemma_sequence_vars(s, next, commands.push(c), seps.push(sep));
                assert(front + command_vars(c) + references(s, next, false) =~= front + (
                command_vars(c) + references(s, next, false)));
            },
        }
    }
}

/// The variables of a plan are exactly the `$NAME` and `${NAME}` of the `run`
/// string that stand outside single quotes, each as often as it is written; they
/// are in source order, and no two spans overlap.
pub proof fn law_references_are_all_found(s: Seq<char>)
    ensures
        plan(s) matches Ok(p) ==> {
            &&& forall|v: VarView| #[trigger] plan_vars(p).contains(v) <==> is_reference(s, v)
            &&& forall|i: int, j: int|
                0 <= i < j < plan_vars(p).len() ==> (#[trigger] plan_vars(p)[i]).start
                    < plan_vars(p)[i].end <= (#[trigger] plan_vars(p)[j]).start
        },
{
    lemma_sequence_shape(s, 0, Seq::empty(), Seq::empty());
    lemma_sequence_vars(s, 0, Seq::empty(), Seq::empty());
    lemma_references(s, 0, false);
    law_spans_point_at_references(s);
    law_direct_plans_are_static(s, Map::empty());
    if let Ok(p) = program(s) {
        let (cs, ss) = sequence(s, 0, Seq::empty(), Seq::empty())->Ok_0;
        assert(all_commands(p) =~= cs);
        assert(commands_vars(Seq::<CommandView>::empty()) =~= Seq::<VarView>::empty());
        assert(commands_vars(cs) =~= references(s, 0, false));
    }
    if let Ok(p) = plan(s) {
        let vars = plan_vars(p);
        assert(vars == references(s, 0, false));
        assert forall|v: VarView| #[trigger] vars.contains(v) <==> is_reference(s, v) by {}
    }
}

/// No command of a parsed program is empty, so every command has a program to
/// run; and there is one separator between each two commands.
pub proof fn law_commands_are_never_empty(s: Seq<char>)
    ensures
        program(s) matches Ok(p) ==> forall|i: int|
            0 <= i < all_commands(p).len() ==> (#[trigger] all_commands(p)[i]).len() > 0,
        plan(s) matches Ok(PlanView::Direct(argv)) ==> argv.len() > 0,
{
    lemma_sequence_shape(s, 0, Seq::empty(), Seq::empty());
    if let Ok(p) = program(s) {
        let (cs, ss) = sequence(s, 0, Seq::empty(), Seq::empty())->Ok_0;
        assert(all_commands(p) =~= cs);
    }
}

/// Text from quotes and from variables is never a glob: a word whose unquoted
/// text has no metacharacter stays one literal argument, whatever its variables
/// hold.
pub proof fn law_expanded_values_are_never_globbed(w: WordView, env: Map<Seq<char>, Seq<char>>)
    requires
        forall|i: int| 0 <= i < w.len() ==> !is_glob_part(#[trigger] w[i]),
    ensures
        expanded_word(w, env) == ArgView::Literal(word_text(w, env)),
{
}

/// A pattern that the file system matches nowhere stays the word as written.
pub proof fn law_unmatched_pattern_stays_literal(
    dir: Seq<char>,
    pattern: Seq<char>,
    literal: Seq<char>,
)
    ensures
        arg_words(dir, ArgView::Pattern { pattern, literal }, Seq::empty()) == seq![literal],
{
}

/// A plan that is spawned directly references no variable, and expands to its
/// argv in every environment.
pub proof fn law_direct_plans_are_static(s: Seq<char>, env: Map<Seq<char>, Seq<char>>)
    ensures
        plan(s) matches Ok(PlanView::Direct(argv)) ==> program(s) matches Ok(p) && {
            &&& commands_vars(all_commands(p)) == Seq::<VarView>::empty()
            &&& expanded_command(p.first, env) == Seq::new(
                argv.len(),
                |i: int| ArgView::Literal(argv[i]),
            )
        },
{
    if let Ok(PlanView::Direct(argv)) = plan(s) {
        let p = program(s)->Ok_0;
        assert forall|i: int| 0 <= i < p.first.len() implies #[trigger] expanded_word(
            p.first[i],
            env,
        ) == ArgView::Literal(argv[i]) by {
            assert(is_static(p.first[i]));
            lemma_static_word(p.first[i], env);
        }
        assert(expanded_command(p.first, env) =~= Seq::new(
            argv.len(),
            |i: int| ArgView::Literal(argv[i]),
        ));
        lemma_static_command(p.first);
        assert(all_commands(p) =~= seq![p.first]);
        assert(all_commands(p).drop_last() =~= Seq::<CommandView>::empty());
        assert(commands_vars(all_commands(p).drop_last()) =~= Seq::<VarView>::empty());
    }
}

proof fn lemma_static_word(w: WordView, env: Map<Seq<char>, Seq<char>>)
    requires
        is_static(w),
    ensures
        word_text(w, env) == literal_text(w),
        word_vars(w) == Seq::<VarView>::empty(),
        !is_pattern(w),
    decreases w.len(),
{
    if w.len() > 0 {
        assert forall|i: int| 0 <= i < w.drop_last().len() implies !is_dynamic(
            #[trigger] w.drop_last()[i],
        ) by {
            assert(!is_dynamic(w[i]));
        }
        lemma_static_word(w.drop_last(), env);
        assert(!is_dynamic(w.last()));
        assert forall|i: int| 0 <= i < w.len() implies !is_glob_part(#[trigger] w[i]) by {
            assert(!is_dynamic(w[i]));
        }
    }
}

proof fn lemma_static_command(c: CommandView)
    requires
        forall|i: int| 0 <= i < c.len() ==> is_static(#[trigger] c[i]),
    ensures
        command_vars(c) == Seq::<VarView>::empty(),
    decreases c.len(),
{
    if c.len() > 0 {
        lemma_static_command(c.drop_last());
        assert(is_static(c.last()));
        lemma_static_word(c.last(), Map::empty());
    }
}

/// In the rendered diagnostic, the column of the first caret is the column of
/// the span's first character in the line above.
pub proof fn law_carets_sit_under_the_span(src: Seq<char>, span: Span)
    requires
        span.start < src.len(),
    ensures
        ({
            let out = caret_text(src, span);
            let line = 9 + src.len() as int + 1;
            let column = 9 + span.start;
            &&& out[column] == src[span.start as int]
            &&& out[line] == '\n'
            &&& out[line + 1 + column] == '^'
            &&& forall|i: int| line < i < line + 1 + column ==> #[trigger] out[i] == ' '
            &&& out.len() == line + 1 + column + span_width(span)
        }),
{
    reveal_strlit("  run = \"");
    reveal_strlit("\"\n");
}

/// A piece of a word as it is written in a `run` string.
pub enum Piece {
    /// Text without quotes.
    Plain(Seq<char>),
    /// `'...'`.
    Single(Seq<char>),
    /// `"..."`, without a reference.
    Double(Seq<char>),
    /// `$NAME`.
    Var(Seq<char>),
    /// `${NAME}`.
    Braced(Seq<char>),
    /// `"...${NAME}..."`.
    Inside(Seq<char>, Seq<char>, Seq<char>),
}

/// How a piece is written.
pub open spec fn written(p: Piece) -> Seq<char> {
    match p {
        Piece::Plain(t) => t,
        Piece::Single(t) => seq!['\''] + t + seq!['\''],
        Piece::Double(t) => seq!['"'] + t + seq!['"'],
        Piece::Var(n) => seq!['$'] + n,
        Piece::Braced(n) => seq!['$', '{'] + n + seq!['}'],
        Piece::Inside(a, n, b) => seq!['"'] + a + (seq!['$', '{'] + n + seq!['}']) + b + seq!['"'],
    }
}

/// The value of a variable; nothing where it is not set.
pub open spec fn value_of(n: Seq<char>, env: Map<Seq<char>, Seq<char>>) -> Seq<char> {
    if env.contains_key(n) {
        env[n]
    } else {
        Seq::empty()
    }
}

/// What a piece stands for.
pub open spec fn meant(p: Piece, env: Map<Seq<char>, Seq<char>>) -> Seq<char> {
    match p {
        Piece::Plain(t) => t,
        Piece::Single(t) => t,
        Piece::Double(t) => t,
        Piece::Var(n) => value_of(n, env),
        Piece::Braced(n) => value_of(n, env),
        Piece::Inside(a, n, b) => a + value_of(n, env) + b,
    }
}

/// The pattern that a piece stands for: only text without quotes is one.
pub open spec fn meant_pattern(p: Piece, env: Map<Seq<char>, Seq<char>>) -> Seq<char> {
    match p {
        Piece::Plain(t) => t,
        _ => escaped(meant(p, env)),
    }
}

/// Whether a piece makes its word a pattern.
pub open spec fn globs(p: Piece) -> bool {
    p matches Piece::Plain(t) && (t.contains('*') || t.contains('?') || t.contains('['))
}

/// Whether this is a variable name: letters, digits and `_`, with no digit in front.
pub open spec fn is_plain_name(n: Seq<char>) -> bool {
    &&& n.len() > 0
    &&& !('0' <= n[0] && n[0] <= '9')
    &&& forall|i: int|
        0 <= i < n.len() ==> {
            let c = #[trigger] n[i];
            ('a' <= c && c <= 'z') || ('A' <= c && c <= 'Z') || ('0' <= c && c <= '9') || c == '_'
        }
}

/// Whether a text can stand between double quotes without a reference in it.
pub open spec fn is_quotable(t: Seq<char>) -> bool {
    !t.contains('"') && !t.contains('$') && !t.contains('`')
}

/// Whether a character is read as itself outside quotes.
pub open spec fn is_bare_char(c: char) -> bool {
    &&& !text::is_space(c)
    &&& c != '\'' && c != '"' && c != '$' && c != ';' && c != '&' && c != '|' && c != '<' && c != '>'
    &&& c != '`' && c != '(' && c != ')'
}

/// Whether a character stands for itself outside quotes, alone or with others.
pub open spec fn is_plain_char(c: char) -> bool {
    is_bare_char(c) && c != '{' && c != '}'
}

/// Whether a piece can be written so.
pub open spec fn is_piece(p: Piece) -> bool {
    match p {
        Piece::Plain(t) => t.len() > 0 && forall|i: int|
            0 <= i < t.len() ==> is_plain_char(#[trigger] t[i]),
        Piece::Single(t) => !t.contains('\''),
        Piece::Double(t) => is_quotable(t),
        Piece::Var(n) => is_plain_name(n),
        Piece::Braced(n) => is_plain_name(n),
        Piece::Inside(a, n, b) => is_quotable(a) && is_plain_name(n) && is_quotable(b),
    }
}

/// How the first `n` pieces of a word are written.
pub open spec fn written_word(w: Seq<Piece>, n: int) -> Seq<char>
    decreases n,
{
    if n <= 0 {
        Seq::empty()
    } else {
        written_word(w, n - 1) + written(w[n - 1])
    }
}

/// What the first `n` pieces of a word stand for.
pub open spec fn meant_word(w: Seq<Piece>, n: int, env: Map<Seq<char>, Seq<char>>) -> Seq<char>
    decreases n,
{
    if n <= 0 {
        Seq::empty()
    } else {
        meant_word(w, n - 1, env) + meant(w[n - 1], env)
    }
}

/// The pattern that the first `n` pieces of a word stand for.
pub open spec fn meant_word_pattern(
    w: Seq<Piece>,
    n: int,
    env: Map<Seq<char>, Seq<char>>,
) -> Seq<char>
    decreases n,
{
    if n <= 0 {
        Seq::empty()
    } else {
        meant_word_pattern(w, n - 1, env) + meant_pattern(w[n - 1], env)
    }
}

/// Whether a word can be written so: no name runs on into what follows it.
pub open spec fn is_written(w: Seq<Piece>) -> bool {
    &&& w.len() > 0
    &&& forall|i: int| 0 <= i < w.len() ==> is_piece(#[trigger] w[i])
    &&& forall|i: int|
        0 <= i < w.len() - 1 && (#[trigger] w[i]) is Var ==> !text::is_name_char(
            written(w[i + 1])[0],
        )
}

/// Whether a word that was read is one that was written: it stands for the same in
/// every environment, as a text and as a pattern.
pub open spec fn reads_as(r: WordView, w: Seq<Piece>, n: int) -> bool {
    &&& forall|env: Map<Seq<char>, Seq<char>>| #[trigger]
        word_text(r, env) == meant_word(w, n, env)
    &&& forall|env: Map<Seq<char>, Seq<char>>| #[trigger]
        word_pattern(r, env) == meant_word_pattern(w, n, env)
    &&& is_pattern(r) <==> exists|i: int| 0 <= i < n && globs(#[trigger] w[i])
    &&& var_names(r) == written_names(w, n)
    &&& !bare_text(r).contains('{')
}

/// The names of the variables of a word, in their order.
pub open spec fn var_names(r: WordView) -> Seq<Seq<char>> {
    Seq::new(word_vars(r).len(), |i: int| word_vars(r)[i].name)
}

/// The variable that a piece names.
pub open spec fn name_in(p: Piece) -> Seq<Seq<char>> {
    match p {
        Piece::Var(n) => seq![n],
        Piece::Braced(n) => seq![n],
        Piece::Inside(_, n, _) => seq![n],
        _ => Seq::empty(),
    }
}

/// The variables that the first `n` pieces of a word name.
pub open spec fn written_names(w: Seq<Piece>, n: int) -> Seq<Seq<char>>
    decreases n,
{
    if n <= 0 {
        Seq::empty()
    } else {
        written_names(w, n - 1) + name_in(w[n - 1])
    }
}

proof fn lemma_escaped_sum(a: Seq<char>, b: Seq<char>)
    ensures
        escaped(a + b) == escaped(a) + escaped(b),
    decreases b.len(),
{
    if b.len() == 0 {
        assert(a + b =~= a);
        assert(escaped(a) + Seq::<char>::empty() =~= escaped(a));
    } else {
        assert((a + b).drop_last() =~= a + b.drop_last());
        lemma_escaped_sum(a, b.drop_last());
        assert(escaped(a + b) =~= escaped(a) + escaped(b));
    }
}

proof fn lemma_meta_sum(a: Seq<char>, b: Seq<char>)
    ensures
        has_glob_meta(a + b) <==> has_glob_meta(a) || has_glob_meta(b),
{
    if has_glob_meta(a) {
        let i = choose|i: int| 0 <= i < a.len() && is_glob_char(#[trigger] a[i]);
        assert(is_glob_char((a + b)[i]));
    }
    if has_glob_meta(b) {
        let i = choose|i: int| 0 <= i < b.len() && is_glob_char(#[trigger] b[i]);
        assert(is_glob_char((a + b)[a.len() + i]));
    }
    if has_glob_meta(a + b) {
        let i = choose|i: int| 0 <= i < (a + b).len() && is_glob_char(#[trigger] (a + b)[i]);
        if i < a.len() {
            assert(is_glob_char(a[i]));
        } else {
            assert(is_glob_char(b[i - a.len()]));
        }
    }
}

#[verifier::spinoff_prover]
#[verifier::rlimit(80)]
proof fn lemma_push_part(w: WordView, p: PartView, env: Map<Seq<char>, Seq<char>>)
    ensures
        word_text(push_part(w, p), env) == word_text(w, env) + part_text(p, env),
        word_pattern(push_part(w, p), env) == word_pattern(w, env) + part_pattern(p, env),
        bare_text(push_part(w, p)) == bare_text(w) + (match p {
            PartView::Bare(s) => s,
            _ => Seq::empty(),
        }),
        is_pattern(push_part(w, p)) <==> is_pattern(w) || is_glob_part(p),
        var_names(push_part(w, p)) == var_names(w) + (match p {
            PartView::Var(v) => seq![v.name],
            _ => Seq::empty(),
        }),
{
    let r = push_part(w, p);
    if w.len() > 0 {
        let front = w.drop_last();
        let merged = match (w.last(), p) {
            (PartView::Bare(a), PartView::Bare(b)) => Some(PartView::Bare(a + b)),
            (PartView::Quoted(a), PartView::Quoted(b)) => Some(PartView::Quoted(a + b)),
            _ => None,
        };
        if let Some(m) = merged {
            assert(r == front.push(m));
            assert(r.drop_last() =~= front);
            match (w.last(), p) {
                (PartView::Bare(a), PartView::Bare(b)) => {
                    lemma_meta_sum(a, b);
                },
                (PartView::Quoted(a), PartView::Quoted(b)) => {
                    lemma_escaped_sum(a, b);
                },
                _ => {},
            }
            assert(part_text(m, env) =~= part_text(w.last(), env) + part_text(p, env));
            assert(part_pattern(m, env) =~= part_pattern(w.last(), env) + part_pattern(p, env));
            assert(word_text(r, env) =~= word_text(w, env) + part_text(p, env));
            assert(word_pattern(r, env) =~= word_pattern(w, env) + part_pattern(p, env));
            assert(bare_text(r) =~= bare_text(w) + (match p {
                PartView::Bare(s) => s,
                _ => Seq::empty(),
            }));
            assert(word_vars(r) =~= word_vars(w));
            assert(var_names(r) =~= var_names(w) + Seq::<Seq<char>>::empty());
            if is_pattern(w) {
                let i = choose|i: int| 0 <= i < w.len() && is_glob_part(#[trigger] w[i]);
                if i < front.len() {
                    assert(is_glob_part(r[i]));
                } else {
                    assert(is_glob_part(r[r.len() - 1]));
                }
            }
            if is_glob_part(p) {
                assert(is_glob_part(r[r.len() - 1]));
            }
            if is_pattern(r) {
                let i = choose|i: int| 0 <= i < r.len() && is_glob_part(#[trigger] r[i]);
                if i < front.len() {
                    assert(is_glob_part(w[i]));
                } else if !is_glob_part(p) {
                    assert(is_glob_part(w[w.len() - 1]));
                }
            }
        } else {
            lemma_push_new(w, p, env);
        }
    } else {
        lemma_push_new(w, p, env);
    }
}

proof fn lemma_push_new(w: WordView, p: PartView, env: Map<Seq<char>, Seq<char>>)
    ensures
        ({
            let r = w.push(p);
            &&& word_text(r, env) == word_text(w, env) + part_text(p, env)
            &&& word_pattern(r, env) == word_pattern(w, env) + part_pattern(p, env)
            &&& bare_text(r) == bare_text(w) + (match p {
                PartView::Bare(s) => s,
                _ => Seq::empty(),
            })
            &&& is_pattern(r) <==> is_pattern(w) || is_glob_part(p)
            &&& var_names(r) == var_names(w) + (match p {
                PartView::Var(v) => seq![v.name],
                _ => Seq::empty(),
            })
        }),
{
    let r = w.push(p);
    assert(r.drop_last() =~= w);
    assert(var_names(r) =~= var_names(w) + (match p {
        PartView::Var(v) => seq![v.name],
        _ => Seq::empty(),
    }));
    if is_pattern(w) {
        let i = choose|i: int| 0 <= i < w.len() && is_glob_part(#[trigger] w[i]);
        assert(is_glob_part(r[i]));
    }
    if is_glob_part(p) {
        assert(is_glob_part(r[r.len() - 1]));
    }
    if is_pattern(r) {
        let i = choose|i: int| 0 <= i < r.len() && is_glob_part(#[trigger] r[i]);
        if i < w.len() {
            assert(is_glob_part(w[i]));
        }
    }
}

/// Whether a text stands at a position.
pub open spec fn stands_at(s: Seq<char>, pos: int, t: Seq<char>) -> bool {
    0 <= pos && pos + t.len() <= s.len() && s.subrange(pos, pos + t.len()) == t
}

proof fn lemma_stands(s: Seq<char>, pos: int, a: Seq<char>, b: Seq<char>)
    ensures
        stands_at(s, pos, a + b) <==> stands_at(s, pos, a) && stands_at(s, pos + a.len(), b),
        stands_at(s, pos, a) ==> forall|i: int| 0 <= i < a.len() ==> #[trigger] s[pos + i] == a[i],
{
    if stands_at(s, pos, a + b) {
        let whole = s.subrange(pos, pos + (a + b).len());
        assert(s.subrange(pos, pos + a.len()) =~= whole.subrange(0, a.len() as int));
        assert((a + b).subrange(0, a.len() as int) =~= a);
        assert(s.subrange(pos + a.len(), pos + a.len() + b.len()) =~= whole.subrange(
            a.len() as int,
            (a + b).len() as int,
        ));
        assert((a + b).subrange(a.len() as int, (a + b).len() as int) =~= b);
    }
    if stands_at(s, pos, a) && stands_at(s, pos + a.len(), b) {
        assert(s.subrange(pos, pos + (a + b).len()) =~= s.subrange(pos, pos + a.len())
            + s.subrange(pos + a.len(), pos + a.len() + b.len()));
    }
    if stands_at(s, pos, a) {
        assert forall|i: int| 0 <= i < a.len() implies #[trigger] s[pos + i] == a[i] by {
            assert(s.subrange(pos, pos + a.len())[i] == s[pos + i]);
        }
    }
}

spec fn cur_word(cur: Option<WordView>) -> WordView {
    match cur {
        Some(w) => w,
        None => Seq::empty(),
    }
}

proof fn lemma_push_again(w: WordView, a: Seq<char>, b: Seq<char>)
    ensures
        push_part(push_part(w, PartView::Bare(a)), PartView::Bare(b)) == push_part(
            w,
            PartView::Bare(a + b),
        ),
        push_part(push_part(w, PartView::Quoted(a)), PartView::Quoted(b)) == push_part(
            w,
            PartView::Quoted(a + b),
        ),
{
    let r = push_part(w, PartView::Bare(a));
    let q = push_part(w, PartView::Quoted(a));
    if w.len() > 0 {
        if let PartView::Bare(x) = w.last() {
            assert(x + a + b =~= x + (a + b));
            assert(r.drop_last() =~= w.drop_last());
        } else {
            assert(r.drop_last() =~= w);
        }
        if let PartView::Quoted(x) = w.last() {
            assert(x + a + b =~= x + (a + b));
            assert(q.drop_last() =~= w.drop_last());
        } else {
            assert(q.drop_last() =~= w);
        }
    } else {
        assert(r.drop_last() =~= w);
        assert(q.drop_last() =~= w);
    }
}

proof fn lemma_plain_run(
    s: Seq<char>,
    pos: int,
    t: Seq<char>,
    words: CommandView,
    cur: Option<WordView>,
)
    requires
        stands_at(s, pos, t),
        t.len() > 0,
        forall|i: int| 0 <= i < t.len() ==> is_bare_char(#[trigger] t[i]),
    ensures
        command(s, pos, words, cur) == command(
            s,
            pos + t.len(),
            words,
            Some(push_part(cur_word(cur), PartView::Bare(t))),
        ),
    decreases t.len(),
{
    let head = seq![t[0]];
    let rest = t.drop_first();
    assert(t =~= head + rest);
    lemma_stands(s, pos, head, rest);
    assert(s[pos + 0] == head[0]);
    assert(is_bare_char(t[0]));
    let next = Some(push_part(cur_word(cur), PartView::Bare(head)));
    assert(seq![s[pos]] =~= head);
    assert(command(s, pos, words, cur) == command(s, pos + 1, words, next));
    if rest.len() > 0 {
        assert forall|i: int| 0 <= i < rest.len() implies is_bare_char(#[trigger] rest[i]) by {
            assert(rest[i] == t[i + 1]);
        }
        lemma_plain_run(s, pos + 1, rest, words, next);
        lemma_push_again(cur_word(cur), head, rest);
    } else {
        assert(t =~= head);
    }
}

proof fn lemma_double_run(s: Seq<char>, pos: int, t: Seq<char>, w: WordView)
    requires
        stands_at(s, pos, t),
        t.len() > 0,
        is_quotable(t),
    ensures
        double_quoted(s, pos, w) == double_quoted(
            s,
            pos + t.len(),
            push_part(w, PartView::Quoted(t)),
        ),
    decreases t.len(),
{
    let head = seq![t[0]];
    let rest = t.drop_first();
    assert(t =~= head + rest);
    lemma_stands(s, pos, head, rest);
    assert(s[pos + 0] == head[0]);
    assert(t.contains(t[0]));
    assert(seq![s[pos]] =~= head);
    if rest.len() > 0 {
        assert(is_quotable(rest)) by {
            assert forall|c: char| rest.contains(c) implies #[trigger] t.contains(c) by {
                let i = choose|i: int| 0 <= i < rest.len() && rest[i] == c;
                assert(t[i + 1] == c);
            }
        }
        lemma_double_run(s, pos + 1, rest, push_part(w, PartView::Quoted(head)));
        lemma_push_again(w, head, rest);
    } else {
        assert(t =~= head);
    }
}

proof fn lemma_dollar_braced(s: Seq<char>, pos: int, n: Seq<char>)
    requires
        stands_at(s, pos, seq!['$', '{'] + n + seq!['}']),
        is_plain_name(n),
    ensures
        dollar(s, pos) == Ok::<Option<VarView>, ErrorView>(
            Some(VarView { name: n, start: pos, end: pos + n.len() + 3 }),
        ),
        s[pos] == '$',
{
    let open = seq!['$', '{'];
    lemma_stands(s, pos, open + n, seq!['}']);
    lemma_stands(s, pos, open, n);
    lemma_stands(s, pos + 2, n, seq![]);
    lemma_stands(s, pos + 2 + n.len(), seq!['}'], seq![]);
    assert(s[pos + 0] == '$' && s[pos + 1] == '{');
    assert(s[pos + 2 + n.len() + 0] == '}');
    text::lemma_index_from(s, '}', pos + 2);
    let close = text::index_from(s, '}', pos + 2);
    if close < pos + 2 + n.len() {
        let i = close - pos - 2;
        assert(s[pos + 2 + i] == n[i]);
    }
    assert(close == pos + 2 + n.len());
    assert(s.subrange(pos + 2, close) =~= n);
    assert forall|i: int| 0 <= i < n.len() implies text::is_name_char(#[trigger] n[i]) by {}
    assert(is_var_name(n));
}

proof fn lemma_run_end(s: Seq<char>, from: int, n: int)
    requires
        0 <= from <= n <= s.len(),
        forall|i: int| from <= i < n ==> text::is_name_char(#[trigger] s[i]),
        n < s.len() ==> !text::is_name_char(s[n]),
    ensures
        name_end(s, from) == n,
    decreases n - from,
{
    if from < n {
        assert(text::is_name_char(s[from]));
        lemma_run_end(s, from + 1, n);
    }
}

proof fn lemma_dollar_bare(s: Seq<char>, pos: int, n: Seq<char>)
    requires
        stands_at(s, pos, seq!['$'] + n),
        is_plain_name(n),
        pos + 1 + n.len() < s.len() ==> !text::is_name_char(s[pos + 1 + n.len()]),
    ensures
        dollar(s, pos) == Ok::<Option<VarView>, ErrorView>(
            Some(VarView { name: n, start: pos, end: pos + 1 + n.len() }),
        ),
        s[pos] == '$',
{
    lemma_stands(s, pos, seq!['$'], n);
    lemma_stands(s, pos + 1, n, seq![]);
    assert(s[pos + 0] == '$');
    assert(s[pos + 1 + 0] == n[0]);
    let end = pos + 1 + n.len();
    assert forall|i: int| pos + 1 <= i < end implies text::is_name_char(#[trigger] s[i]) by {
        let j = i - pos - 1;
        assert(s[pos + 1 + j] == n[j]);
    }
    lemma_run_end(s, pos + 1, end);
    assert(s.subrange(pos + 1, end) =~= n);
}

proof fn lemma_no_brace(a: Seq<char>, t: Seq<char>)
    requires
        !a.contains('{'),
        !t.contains('{'),
    ensures
        !(a + t).contains('{'),
{
    if (a + t).contains('{') {
        let i = choose|i: int| 0 <= i < (a + t).len() && (a + t)[i] == '{';
        if i < a.len() {
            assert(a[i] == '{');
        } else {
            assert(t[i - a.len()] == '{');
        }
    }
}

/// A text has glob characters exactly if it has a `*`, `?` or `[`.
pub proof fn law_glob_characters(t: Seq<char>)
    ensures
        has_glob_meta(t) <==> t.contains('*') || t.contains('?') || t.contains('['),
{
    if has_glob_meta(t) {
        let i = choose|i: int| 0 <= i < t.len() && is_glob_char(#[trigger] t[i]);
        assert(t.contains(t[i]));
    }
    if t.contains('*') || t.contains('?') || t.contains('[') {
        let i = choose|i: int|
            0 <= i < t.len() && (#[trigger] t[i] == '*' || t[i] == '?' || t[i] == '[');
        assert(is_glob_char(t[i]));
    }
}

/// A word that was read, with one more part, reads as the word that was written with
/// one more piece.
proof fn lemma_reads_part(r: WordView, w: Seq<Piece>, n: int, q: PartView)
    requires
        0 <= n < w.len(),
        reads_as(r, w, n),
        forall|env: Map<Seq<char>, Seq<char>>| #[trigger] part_text(q, env) == meant(w[n], env),
        forall|env: Map<Seq<char>, Seq<char>>| #[trigger]
            part_pattern(q, env) == meant_pattern(w[n], env),
        is_glob_part(q) <==> globs(w[n]),
        q matches PartView::Bare(t) ==> !t.contains('{'),
        name_in(w[n]) == (match q {
            PartView::Var(v) => seq![v.name],
            _ => Seq::empty(),
        }),
    ensures
        reads_as(push_part(r, q), w, n + 1),
{
    let x = push_part(r, q);
    assert forall|env: Map<Seq<char>, Seq<char>>| #[trigger] word_text(x, env) == meant_word(
        w,
        n + 1,
        env,
    ) by {
        lemma_push_part(r, q, env);
        assert(word_text(r, env) == meant_word(w, n, env));
        assert(part_text(q, env) == meant(w[n], env));
    }
    assert forall|env: Map<Seq<char>, Seq<char>>| #[trigger] word_pattern(x, env)
        == meant_word_pattern(w, n + 1, env) by {
        lemma_push_part(r, q, env);
        assert(word_pattern(r, env) == meant_word_pattern(w, n, env));
        assert(part_pattern(q, env) == meant_pattern(w[n], env));
    }
    lemma_push_part(r, q, Map::empty());
    if let PartView::Bare(t) = q {
        lemma_no_brace(bare_text(r), t);
    } else {
        lemma_no_brace(bare_text(r), Seq::empty());
    }
    lemma_any_globs(w, n);
}

proof fn lemma_any_globs(w: Seq<Piece>, n: int)
    requires
        0 <= n < w.len(),
    ensures
        (exists|i: int| 0 <= i < n + 1 && globs(#[trigger] w[i])) <==> (exists|i: int|
            0 <= i < n && globs(#[trigger] w[i])) || globs(w[n]),
{
}

/// Nothing is added by a piece that stands for nothing.
proof fn lemma_reads_nothing(r: WordView, w: Seq<Piece>, n: int)
    requires
        0 <= n < w.len(),
        reads_as(r, w, n),
        w[n] == Piece::Double(Seq::empty()),
    ensures
        reads_as(r, w, n + 1),
{
    assert forall|env: Map<Seq<char>, Seq<char>>| #[trigger] word_text(r, env) == meant_word(
        w,
        n + 1,
        env,
    ) by {
        assert(meant_word(w, n, env) + Seq::<char>::empty() =~= meant_word(w, n, env));
    }
    assert forall|env: Map<Seq<char>, Seq<char>>| #[trigger] word_pattern(r, env)
        == meant_word_pattern(w, n + 1, env) by {
        assert(meant_word_pattern(w, n, env) + Seq::<char>::empty() =~= meant_word_pattern(
            w,
            n,
            env,
        ));
    }
    lemma_any_globs(w, n);
    assert(written_names(w, n) + Seq::<Seq<char>>::empty() =~= written_names(w, n));
}

/// The parts of a text in double quotes around a reference, one after the other.
proof fn lemma_inside(r: WordView, a: Seq<char>, v: VarView, b: Seq<char>) -> (x: WordView)
    ensures
        x == (if b.len() > 0 {
            push_part(
                push_part(
                    if a.len() > 0 {
                        push_part(r, PartView::Quoted(a))
                    } else {
                        r
                    },
                    PartView::Var(v),
                ),
                PartView::Quoted(b),
            )
        } else {
            push_part(
                if a.len() > 0 {
                    push_part(r, PartView::Quoted(a))
                } else {
                    r
                },
                PartView::Var(v),
            )
        }),
        forall|env: Map<Seq<char>, Seq<char>>| #[trigger]
            word_text(x, env) == word_text(r, env) + (a + value_of(v.name, env) + b),
        forall|env: Map<Seq<char>, Seq<char>>| #[trigger]
            word_pattern(x, env) == word_pattern(r, env) + escaped(a + value_of(v.name, env) + b),
        bare_text(x) == bare_text(r),
        is_pattern(x) <==> is_pattern(r),
        var_names(x) == var_names(r) + seq![v.name],
{
    let r1 = if a.len() > 0 {
        push_part(r, PartView::Quoted(a))
    } else {
        r
    };
    let r2 = push_part(r1, PartView::Var(v));
    let x = if b.len() > 0 {
        push_part(r2, PartView::Quoted(b))
    } else {
        r2
    };
    assert forall|env: Map<Seq<char>, Seq<char>>|
        (#[trigger] word_text(x, env)) == word_text(r, env) + (a + value_of(v.name, env) + b)
            && word_pattern(x, env) == word_pattern(r, env) + escaped(
            a + value_of(v.name, env) + b,
        ) by {
        lemma_push_part(r, PartView::Quoted(a), env);
        lemma_push_part(r1, PartView::Var(v), env);
        lemma_push_part(r2, PartView::Quoted(b), env);
        let m = value_of(v.name, env);
        lemma_escaped_sum(a + m, b);
        lemma_escaped_sum(a, m);
        assert(escaped(Seq::<char>::empty()) =~= Seq::<char>::empty());
        if a.len() == 0 {
            assert(a =~= Seq::empty());
        }
        if b.len() == 0 {
            assert(b =~= Seq::empty());
        }
        assert(word_text(x, env) =~= word_text(r, env) + (a + m + b));
        assert(word_pattern(x, env) =~= word_pattern(r, env) + (escaped(a) + escaped(m) + escaped(
            b,
        )));
    }
    assert forall|env: Map<Seq<char>, Seq<char>>| #[trigger]
        word_pattern(x, env) == word_pattern(r, env) + escaped(a + value_of(v.name, env) + b) by {
        assert(word_text(x, env) == word_text(r, env) + (a + value_of(v.name, env) + b));
    }
    let none = Map::<Seq<char>, Seq<char>>::empty();
    lemma_push_part(r, PartView::Quoted(a), none);
    lemma_push_part(r1, PartView::Var(v), none);
    lemma_push_part(r2, PartView::Quoted(b), none);
    assert(bare_text(x) =~= bare_text(r));
    assert(var_names(x) =~= var_names(r) + seq![v.name]);
    x
}

/// A piece is read as it was written.
#[verifier::rlimit(60)]
proof fn lemma_read_piece(
    s: Seq<char>,
    pos: int,
    words: CommandView,
    cur: Option<WordView>,
    w: Seq<Piece>,
    n: int,
) -> (r: WordView)
    requires
        0 <= n < w.len(),
        is_piece(w[n]),
        stands_at(s, pos, written(w[n])),
        w[n] is Var && pos + written(w[n]).len() < s.len() ==> !text::is_name_char(
            s[pos + written(w[n]).len()],
        ),
        reads_as(cur_word(cur), w, n),
    ensures
        command(s, pos, words, cur) == command(s, pos + written(w[n]).len(), words, Some(r)),
        reads_as(r, w, n + 1),
{
    let c = cur_word(cur);
    text::law_white_space('\'');
    text::law_white_space('"');
    text::law_white_space('$');
    match w[n] {
        Piece::Plain(t) => {
            lemma_plain_run(s, pos, t, words, cur);
            law_glob_characters(t);
            assert(!t.contains('{')) by {
                if t.contains('{') {
                    let i = choose|i: int| 0 <= i < t.len() && t[i] == '{';
                    assert(is_plain_char(t[i]));
                }
            }
            lemma_reads_part(c, w, n, PartView::Bare(t));
            push_part(c, PartView::Bare(t))
        },
        Piece::Single(t) => {
            let q = seq!['\''];
            lemma_stands(s, pos, q + t, q);
            lemma_stands(s, pos, q, t);
            lemma_stands(s, pos + 1, t, seq![]);
            lemma_stands(s, pos + 1 + t.len(), q, seq![]);
            assert(s[pos + 0] == '\'');
            assert(s[pos + 1 + t.len() + 0] == '\'');
            text::lemma_index_from(s, '\'', pos + 1);
            let close = text::index_from(s, '\'', pos + 1);
            if close < pos + 1 + t.len() {
                let i = close - pos - 1;
                assert(s[pos + 1 + i] == t[i]);
                assert(t.contains('\''));
            }
            assert(close == pos + 1 + t.len());
            assert(s.subrange(pos + 1, close) =~= t);
            lemma_reads_part(c, w, n, PartView::Quoted(t));
            push_part(c, PartView::Quoted(t))
        },
        Piece::Double(t) => {
            let q = seq!['"'];
            lemma_stands(s, pos, q + t, q);
            lemma_stands(s, pos, q, t);
            lemma_stands(s, pos + 1 + t.len(), q, seq![]);
            assert(s[pos + 0] == '"');
            assert(s[pos + 1 + t.len() + 0] == '"');
            if t.len() > 0 {
                lemma_double_run(s, pos + 1, t, c);
                lemma_reads_part(c, w, n, PartView::Quoted(t));
                push_part(c, PartView::Quoted(t))
            } else {
                assert(t =~= Seq::empty());
                lemma_reads_nothing(c, w, n);
                c
            }
        },
        Piece::Var(name) => {
            lemma_dollar_bare(s, pos, name);
            let v = VarView { name, start: pos, end: pos + 1 + name.len() };
            lemma_reads_part(c, w, n, PartView::Var(v));
            push_part(c, PartView::Var(v))
        },
        Piece::Braced(name) => {
            lemma_dollar_braced(s, pos, name);
            let v = VarView { name, start: pos, end: pos + name.len() + 3 };
            lemma_reads_part(c, w, n, PartView::Var(v));
            push_part(c, PartView::Var(v))
        },
        Piece::Inside(a, name, b) => {
            let q = seq!['"'];
            let d = seq!['$', '{'] + name + seq!['}'];
            lemma_stands(s, pos, q + a + d + b, q);
            lemma_stands(s, pos, q + a + d, b);
            lemma_stands(s, pos, q + a, d);
            lemma_stands(s, pos, q, a);
            let p1 = pos + 1 + a.len();
            let p2 = p1 + d.len();
            let p3 = p2 + b.len();
            assert(stands_at(s, p1, d));
            assert(stands_at(s, p2, b));
            assert(stands_at(s, p3, q));
            lemma_stands(s, p3, q, seq![]);
            assert(s[pos + 0] == '"');
            assert(s[p3 + 0] == '"');
            let v = VarView { name, start: p1, end: p1 + name.len() + 3 };
            lemma_dollar_braced(s, p1, name);
            let r1 = if a.len() > 0 {
                push_part(c, PartView::Quoted(a))
            } else {
                c
            };
            if a.len() > 0 {
                lemma_double_run(s, pos + 1, a, c);
            }
            assert(double_quoted(s, pos + 1, c) == double_quoted(s, p1, r1));
            let r2 = push_part(r1, PartView::Var(v));
            assert(double_quoted(s, p1, r1) == double_quoted(s, p2, r2));
            if b.len() > 0 {
                lemma_double_run(s, p2, b, r2);
            }
            let x = lemma_inside(c, a, v, b);
            assert(double_quoted(s, p2, r2) == double_quoted(s, p3, x));
            assert forall|env: Map<Seq<char>, Seq<char>>| #[trigger] word_text(x, env)
                == meant_word(w, n + 1, env) by {
                assert(word_text(c, env) == meant_word(w, n, env));
            }
            assert forall|env: Map<Seq<char>, Seq<char>>| #[trigger] word_pattern(x, env)
                == meant_word_pattern(w, n + 1, env) by {
                assert(word_pattern(c, env) == meant_word_pattern(w, n, env));
            }
            lemma_any_globs(w, n);
            x
        },
    }
}

/// The rest of a word is read as it was written.
proof fn lemma_read_word(
    s: Seq<char>,
    pos: int,
    words: CommandView,
    cur: Option<WordView>,
    w: Seq<Piece>,
    n: int,
) -> (r: WordView)
    requires
        0 <= n <= w.len(),
        is_written(w),
        n == w.len() ==> cur is Some,
        stands_at(s, pos - written_word(w, n).len(), written_word(w, w.len() as int)),
        ({
            let end = pos - written_word(w, n).len() + written_word(w, w.len() as int).len();
            end < s.len() ==> !text::is_name_char(s[end])
        }),
        reads_as(cur_word(cur), w, n),
    ensures
        command(s, pos, words, cur) == command(
            s,
            pos - written_word(w, n).len() + written_word(w, w.len() as int).len(),
            words,
            Some(r),
        ),
        reads_as(r, w, w.len() as int),
    decreases w.len() - n,
{
    if n == w.len() {
        cur->0
    } else {
        let start = pos - written_word(w, n).len();
        let p = written(w[n]);
        lemma_written_prefix(w, n + 1, w.len() as int, s, start);
        let end = pos + p.len();
        lemma_stands(s, start, written_word(w, n), p);
        assert(stands_at(s, pos, p));
        if w[n] is Var && end < s.len() && n + 1 < w.len() {
            assert(is_piece(w[n + 1]));
            lemma_written_prefix(w, n + 2, w.len() as int, s, start);
            let q = written(w[n + 1]);
            lemma_stands(s, start, written_word(w, n + 1), q);
            lemma_stands(s, end, q, seq![]);
            lemma_written_is_not_empty(w[n + 1]);
            assert(s[end + 0] == q[0]);
            assert(!text::is_name_char(written(w[n + 1])[0]));
        }
        let r = lemma_read_piece(s, pos, words, cur, w, n);
        lemma_read_word(s, end, words, Some(r), w, n + 1)
    }
}

proof fn lemma_written_is_not_empty(p: Piece)
    requires
        is_piece(p),
    ensures
        written(p).len() > 0,
{
}

proof fn lemma_written_prefix(w: Seq<Piece>, n: int, m: int, s: Seq<char>, pos: int)
    requires
        0 <= n <= m <= w.len(),
        stands_at(s, pos, written_word(w, m)),
    ensures
        stands_at(s, pos, written_word(w, n)),
    decreases m - n,
{
    if n < m {
        lemma_stands(s, pos, written_word(w, m - 1), written(w[m - 1]));
        lemma_written_prefix(w, n, m - 1, s, pos);
    }
}

/// How the first `n` words of a command are written, with a space between them.
pub open spec fn written_command(c: Seq<Seq<Piece>>, n: int) -> Seq<char>
    decreases n,
{
    if n <= 0 {
        Seq::empty()
    } else if n == 1 {
        written_word(c[0], c[0].len() as int)
    } else {
        written_command(c, n - 1) + seq![' '] + written_word(c[n - 1], c[n - 1].len() as int)
    }
}

/// Whether the words of a command that was read are those that were written.
pub open spec fn command_reads_as(r: CommandView, c: Seq<Seq<Piece>>) -> bool {
    &&& r.len() == c.len()
    &&& forall|i: int| 0 <= i < c.len() ==> reads_as(#[trigger] r[i], c[i], c[i].len() as int)
}

proof fn lemma_command_prefix(c: Seq<Seq<Piece>>, n: int, m: int, s: Seq<char>, pos: int)
    requires
        0 <= n <= m <= c.len(),
        stands_at(s, pos, written_command(c, m)),
    ensures
        stands_at(s, pos, written_command(c, n)),
    decreases m - n,
{
    if n < m {
        if m == 1 {
            assert(s.subrange(pos, pos) =~= Seq::empty());
        } else {
            let w = written_word(c[m - 1], c[m - 1].len() as int);
            lemma_stands(s, pos, written_command(c, m - 1) + seq![' '], w);
            lemma_stands(s, pos, written_command(c, m - 1), seq![' ']);
        }
        lemma_command_prefix(c, n, m - 1, s, pos);
    }
}

/// The first `n` words of a command are read as they were written; the last one is
/// still being read.
proof fn lemma_read_words(s: Seq<char>, pos: int, c: Seq<Seq<Piece>>, n: int) -> (r: (
    CommandView,
    WordView,
))
    requires
        1 <= n <= c.len(),
        forall|i: int| 0 <= i < c.len() ==> is_written(#[trigger] c[i]),
        stands_at(s, pos, written_command(c, n)),
        ({
            let end = pos + written_command(c, n).len();
            end < s.len() ==> !text::is_name_char(s[end])
        }),
    ensures
        command(s, pos, Seq::empty(), None) == command(
            s,
            pos + written_command(c, n).len(),
            r.0,
            Some(r.1),
        ),
        command_reads_as(r.0.push(r.1), c.take(n)),
    decreases n,
{
    let none = Seq::<PartView>::empty();
    let w = c[n - 1];
    let t = written_word(w, w.len() as int);
    assert(reads_as(none, w, 0)) by {
        assert(!bare_text(none).contains('{'));
        assert(var_names(none) =~= Seq::empty());
    }
    assert(is_written(c[n - 1]));
    if n == 1 {
        let x = lemma_read_word(s, pos, Seq::empty(), None, w, 0);
        assert(Seq::<WordView>::empty().push(x) =~= seq![x]);
        (Seq::empty(), x)
    } else {
        let front = written_command(c, n - 1);
        lemma_stands(s, pos, front + seq![' '], t);
        lemma_stands(s, pos, front, seq![' ']);
        let gap = pos + front.len();
        lemma_stands(s, gap, seq![' '], seq![]);
        assert(s[gap + 0] == ' ');
        let (words, last) = lemma_read_words(s, pos, c, n - 1);
        text::law_white_space(' ');
        let all = words.push(last);
        assert(command(s, gap, words, Some(last)) == command(s, gap + 1, all, None));
        let x = lemma_read_word(s, gap + 1, all, None, w, 0);
        let r = all.push(x);
        assert forall|i: int| 0 <= i < n implies reads_as(
            #[trigger] r[i],
            c.take(n)[i],
            c.take(n)[i].len() as int,
        ) by {
            if i < n - 1 {
                assert(r[i] == all[i]);
                assert(c.take(n - 1)[i] == c[i]);
            }
        }
        (all, x)
    }
}

/// How a separator is written.
pub open spec fn written_sep(sep: Sep) -> Seq<char> {
    match sep {
        Sep::And => seq!['&', '&'],
        Sep::Or => seq!['|', '|'],
        Sep::Semi => seq![';'],
    }
}

/// How the commands from `from` on are written, with their separators between them.
pub open spec fn written_from(cs: Seq<Seq<Seq<Piece>>>, seps: Seq<Sep>, from: int) -> Seq<char>
    decreases cs.len() - from,
{
    if from >= cs.len() {
        Seq::empty()
    } else {
        let here = written_command(cs[from], cs[from].len() as int);
        if from == cs.len() - 1 {
            here
        } else {
            here + seq![' '] + written_sep(seps[from]) + seq![' '] + written_from(
                cs,
                seps,
                from + 1,
            )
        }
    }
}

proof fn lemma_read_from(
    s: Seq<char>,
    pos: int,
    lead: int,
    cs: Seq<Seq<Seq<Piece>>>,
    seps: Seq<Sep>,
    from: int,
    done: Seq<CommandView>,
) -> (r: Seq<CommandView>)
    requires
        0 <= from < cs.len(),
        seps.len() == cs.len() - 1,
        0 <= pos,
        lead == 0 || lead == 1 && pos < s.len() && s[pos] == ' ',
        stands_at(s, pos + lead, written_from(cs, seps, from)),
        pos + lead + written_from(cs, seps, from).len() == s.len(),
        forall|k: int, i: int|
            0 <= k < cs.len() && 0 <= i < cs[k].len() ==> is_written(#[trigger] cs[k][i]),
        forall|k: int| 0 <= k < cs.len() ==> (#[trigger] cs[k]).len() > 0,
        done.len() == from,
        forall|k: int| 0 <= k < from ==> command_reads_as(#[trigger] done[k], cs[k]),
    ensures
        sequence(s, pos, done, seps.take(from)) == Ok::<(Seq<CommandView>, Seq<Sep>), ErrorView>(
            (r, seps),
        ),
        r.len() == cs.len(),
        forall|k: int| 0 <= k < cs.len() ==> command_reads_as(#[trigger] r[k], cs[k]),
    decreases cs.len() - from,
{
    let c = cs[from];
    let here = written_command(c, c.len() as int);
    let start = pos + lead;
    let end = start + here.len();
    text::law_white_space(' ');
    text::law_character_classes(' ');
    assert(cs[from].len() > 0);
    assert forall|i: int| 0 <= i < c.len() implies is_written(#[trigger] c[i]) by {
        assert(is_written(cs[from][i]));
    }
    if from < cs.len() - 1 {
        let sep = written_sep(seps[from]);
        let rest = written_from(cs, seps, from + 1);
        lemma_stands(s, start, here + seq![' '] + sep + seq![' '], rest);
        lemma_stands(s, start, here + seq![' '] + sep, seq![' ']);
        lemma_stands(s, start, here + seq![' '], sep);
        lemma_stands(s, start, here, seq![' ']);
        lemma_stands(s, end, seq![' '], seq![]);
        assert(s[end + 0] == ' ');
        let at = end + 1;
        assert(stands_at(s, at, sep));
        lemma_stands(s, at, sep, seq![]);
        assert(s[at + 0] == sep[0]);
        if sep.len() == 2 {
            assert(s[at + 1] == sep[1]);
        }
        let next = at + sep.len();
        assert(stands_at(s, next, seq![' ']));
        lemma_stands(s, next, seq![' '], seq![]);
        assert(s[next + 0] == ' ');
        assert(separator(s, at) == Some((seps[from], next)));
        let (words, last) = lemma_read_words(s, start, c, c.len() as int);
        let all = words.push(last);
        assert(c.take(c.len() as int) =~= c);
        assert(command(s, end, words, Some(last)) == command(s, at, all, None));
        assert(command(s, at, all, None) == Ok::<(CommandView, int), ErrorView>((all, at)));
        if lead == 1 {
            assert(command(s, pos, Seq::empty(), None) == command(s, start, Seq::empty(), None));
        }
        assert(command(s, pos, Seq::empty(), None) == Ok::<(CommandView, int), ErrorView>(
            (all, at),
        ));
        let more = done.push(all);
        assert(seps.take(from).push(seps[from]) =~= seps.take(from + 1));
        assert(sequence(s, pos, done, seps.take(from)) == sequence(
            s,
            next,
            more,
            seps.take(from + 1),
        ));
        assert forall|k: int| 0 <= k < from + 1 implies command_reads_as(
            #[trigger] more[k],
            cs[k],
        ) by {
            if k < from {
                assert(more[k] == done[k]);
            }
        }
        lemma_read_from(s, next, 1, cs, seps, from + 1, more)
    } else {
        let (words, last) = lemma_read_words(s, start, c, c.len() as int);
        let all = words.push(last);
        assert(c.take(c.len() as int) =~= c);
        assert(end == s.len());
        assert(command(s, end, words, Some(last)) == Ok::<(CommandView, int), ErrorView>(
            (all, end),
        ));
        if lead == 1 {
            assert(command(s, pos, Seq::empty(), None) == command(s, start, Seq::empty(), None));
        }
        let more = done.push(all);
        assert(seps.take(from) =~= seps);
        assert forall|k: int| 0 <= k < cs.len() implies command_reads_as(
            #[trigger] more[k],
            cs[k],
        ) by {
            if k < from {
                assert(more[k] == done[k]);
            }
        }
        more
    }
}

proof fn lemma_no_braces_no_group(s: Seq<char>)
    requires
        !s.contains('{'),
    ensures
        !has_brace_group(s),
{
}

/// A `run` string says what it is written to say. Commands of words, separated by
/// `&&`, `||` and `;`, are read back as the same commands with the same separators:
/// quotes hold a word together and are taken off, `$NAME` and `${NAME}` stand for the
/// variable outside single quotes and for their own text inside, and a word is a
/// pattern exactly if it has `*`, `?` or `[` outside quotes.
pub proof fn law_run_strings_are_read_back(cs: Seq<Seq<Seq<Piece>>>, seps: Seq<Sep>)
    requires
        cs.len() > 0,
        seps.len() == cs.len() - 1,
        forall|k: int| 0 <= k < cs.len() ==> (#[trigger] cs[k]).len() > 0,
        forall|k: int, i: int|
            0 <= k < cs.len() && 0 <= i < cs[k].len() ==> is_written(#[trigger] cs[k][i]),
    ensures
        program(written_from(cs, seps, 0)) matches Ok(p) && {
            &&& all_seps(p) == seps
            &&& all_commands(p).len() == cs.len()
            &&& forall|k: int|
                0 <= k < cs.len() ==> command_reads_as(#[trigger] all_commands(p)[k], cs[k])
        },
{
    let s = written_from(cs, seps, 0);
    assert(s.subrange(0, s.len() as int) =~= s);
    let none = Seq::<CommandView>::empty();
    let r = lemma_read_from(s, 0, 0, cs, seps, 0, none);
    assert(seps.take(0) =~= Seq::<Sep>::empty());
    assert forall|i: int| 0 <= i < r.len() implies (#[trigger] r[i]).len() > 0 by {
        assert(cs[i].len() > 0);
        assert(command_reads_as(r[i], cs[i]));
    }
    assert forall|k: int| 0 <= k < r.len() implies !has_brace_expansion(#[trigger] r[k]) by {
        assert(command_reads_as(r[k], cs[k]));
        assert forall|i: int| 0 <= i < r[k].len() implies !has_brace_group(
            bare_text(#[trigger] r[k][i]),
        ) by {
            assert(reads_as(r[k][i], cs[k][i], cs[k][i].len() as int));
            lemma_no_braces_no_group(bare_text(r[k][i]));
        }
    }
    let p = program(s)->Ok_0;
    assert(all_commands(p) =~= r);
    assert(all_seps(p) =~= seps);
}

proof fn lemma_static(r: WordView)
    ensures
        is_static(r) <==> var_names(r).len() == 0 && !is_pattern(r),
    decreases r.len(),
{
    if r.len() > 0 {
        let front = r.drop_last();
        lemma_static(front);
        lemma_push_new(front, r.last(), Map::empty());
        assert(front.push(r.last()) =~= r);
        if is_static(r) {
            assert forall|i: int| 0 <= i < front.len() implies !is_dynamic(#[trigger] front[i]) by {
                assert(r[i] == front[i]);
            }
            assert(!is_dynamic(r[r.len() - 1]));
        }
        if is_static(front) && !is_dynamic(r.last()) {
            assert forall|i: int| 0 <= i < r.len() implies !is_dynamic(#[trigger] r[i]) by {
                if i < front.len() {
                    assert(r[i] == front[i]);
                }
            }
        }
    } else {
        assert(var_names(r).len() == 0);
    }
}

/// A single command without a variable and without a pattern is run as it stands, word by
/// word; everything else goes through the shell.
pub proof fn law_simple_commands_run_directly(c: Seq<Seq<Piece>>)
    requires
        c.len() > 0,
        forall|i: int| 0 <= i < c.len() ==> is_written(#[trigger] c[i]),
    ensures
        ({
            let s = written_command(c, c.len() as int);
            let simple = forall|i: int|
                0 <= i < c.len() ==> written_names(#[trigger] c[i], c[i].len() as int).len() == 0
                    && !(exists|k: int| 0 <= k < c[i].len() && globs(#[trigger] c[i][k]));
            &&& plan(s) is Ok
            &&& simple <==> plan(s)->Ok_0 is Direct
            &&& plan(s)->Ok_0 matches PlanView::Direct(argv) ==> argv.len() == c.len() && forall|
                i: int,
            |
                0 <= i < c.len() ==> #[trigger] argv[i] == meant_word(
                    c[i],
                    c[i].len() as int,
                    Map::empty(),
                )
        }),
{
    let cs = seq![c];
    let seps = Seq::<Sep>::empty();
    let s = written_command(c, c.len() as int);
    assert forall|k: int, i: int| 0 <= k < cs.len() && 0 <= i < cs[k].len() implies is_written(
        #[trigger] cs[k][i],
    ) by {
        assert(cs[k] == c);
        assert(is_written(c[i]));
    }
    assert forall|k: int| 0 <= k < cs.len() implies (#[trigger] cs[k]).len() > 0 by {
        assert(cs[k] == c);
    }
    law_run_strings_are_read_back(cs, seps);
    assert(written_from(cs, seps, 0) == s);
    let p = program(s)->Ok_0;
    assert(all_commands(p)[0] == p.first);
    assert(command_reads_as(all_commands(p)[0], cs[0]));
    assert(p.rest.len() == 0) by {
        assert(all_seps(p).len() == 0);
    }
    assert forall|i: int| 0 <= i < c.len() implies (is_static(#[trigger] p.first[i])
        <==> written_names(c[i], c[i].len() as int).len() == 0 && !(exists|k: int|
        0 <= k < c[i].len() && globs(#[trigger] c[i][k]))) && literal_text(p.first[i])
        == meant_word(c[i], c[i].len() as int, Map::empty()) by {
        assert(reads_as(p.first[i], c[i], c[i].len() as int));
        lemma_static(p.first[i]);
    }
    let simple = forall|i: int|
        0 <= i < c.len() ==> written_names(#[trigger] c[i], c[i].len() as int).len() == 0
            && !(exists|k: int| 0 <= k < c[i].len() && globs(#[trigger] c[i][k]));
    if simple {
        assert forall|i: int| 0 <= i < p.first.len() implies is_static(#[trigger] p.first[i]) by {
            let w = c[i];
        }
    } else {
        let i = choose|i: int|
            0 <= i < c.len() && !(written_names(#[trigger] c[i], c[i].len() as int).len() == 0
                && !(exists|k: int| 0 <= k < c[i].len() && globs(#[trigger] c[i][k])));
        assert(!is_static(p.first[i]));
    }
}

/// Reading goes on behind a command that was written, with its words read.
proof fn lemma_read_front(s: Seq<char>, c: Seq<Seq<Piece>>, rest: Seq<char>) -> (all: CommandView)
    requires
        c.len() > 0,
        forall|i: int| 0 <= i < c.len() ==> is_written(#[trigger] c[i]),
        s == written_command(c, c.len() as int) + seq![' '] + rest,
    ensures
        command(s, 0, Seq::empty(), None) == command(
            s,
            written_command(c, c.len() as int).len() as int + 1,
            all,
            None,
        ),
        all.len() == c.len(),
{
    let front = written_command(c, c.len() as int);
    let n = front.len() as int;
    assert(s.subrange(0, n) =~= front);
    assert(s[n] == ' ');
    text::law_white_space(' ');
    text::law_character_classes(' ');
    let (words, last) = lemma_read_words(s, 0, c, c.len() as int);
    assert(c.take(c.len() as int) =~= c);
    words.push(last)
}

/// What only a real shell can do is refused, wherever a command stands in front of it or
/// none: a pipe, a redirection, a background job, a subshell and a command
/// substitution.
pub proof fn law_what_is_refused(c: Seq<Seq<Piece>>, x: char, rest: Seq<char>)
    requires
        c.len() > 0,
        forall|i: int| 0 <= i < c.len() ==> is_written(#[trigger] c[i]),
        x == '|' || x == '&' || x == '<' || x == '>' || x == '`' || x == '(' || x == ')',
        (x == '|' || x == '&') && rest.len() > 0 ==> rest[0] != x,
    ensures
        program(seq![x] + rest) is Err,
        program(written_command(c, c.len() as int) + seq![' '] + (seq![x] + rest)) is Err,
        plan(seq![x] + rest) is Err,
        plan(written_command(c, c.len() as int) + seq![' '] + (seq![x] + rest)) is Err,
{
    text::law_white_space(x);
    let a = seq![x] + rest;
    assert(a[0] == x);
    if rest.len() > 0 {
        assert(a[1] == rest[0]);
    }
    assert(separator(a, 0) is None);
    assert(rejected(x) is Some);
    let front = written_command(c, c.len() as int);
    let s = front + seq![' '] + (seq![x] + rest);
    let n = front.len() as int + 1;
    let all = lemma_read_front(s, c, a);
    assert(s[n] == x);
    if rest.len() > 0 {
        assert(s[n + 1] == rest[0]);
    }
    assert(separator(s, n) is None);
    assert(command(s, n, all, None) is Err);
}

/// What the refusals say.
pub proof fn law_refusals_say_why()
    ensures
        rejected('|') == Some(
            ErrorView::Config(
                "'run' string uses '"@ + seq!['|'] + "' ("@ + "pipe"@
                    + "), which is unsupported — "@ + "use `delegate` or a script file"@,
            ),
        ),
        rejected('>') == Some(
            ErrorView::Config(
                "'run' string uses '"@ + seq!['>'] + "' ("@ + "redirection"@
                    + "), which is unsupported — "@ + "use a script file"@,
            ),
        ),
        rejected('<') == Some(
            ErrorView::Config(
                "'run' string uses '"@ + seq!['<'] + "' ("@ + "redirection"@
                    + "), which is unsupported — "@ + "use a script file"@,
            ),
        ),
        rejected('(') == Some(
            ErrorView::Config(
                "'run' string uses '"@ + seq!['('] + "' ("@ + "subshell"@
                    + "), which is unsupported — "@ + "use `delegate` or a script file"@,
            ),
        ),
        rejected('`') == Some(
            ErrorView::Config(
                "'run' string uses command substitution ('$(...)' or backticks), which is unsupported — use a script file"@,
            ),
        ),
{
}

/// A quote or a `${` that is not closed is refused, and so are `$(` and a `${}` that holds
/// anything but a name.
pub proof fn law_what_must_be_closed(c: Seq<Seq<Piece>>, t: Seq<char>, rest: Seq<char>)
    requires
        c.len() > 0,
        forall|i: int| 0 <= i < c.len() ==> is_written(#[trigger] c[i]),
    ensures
        ({
            let front = written_command(c, c.len() as int) + seq![' '];
            &&& !t.contains('\'') ==> program(front + (seq!['\''] + t)) == Err::<
                ProgramView,
                ErrorView,
            >(ErrorView::Config("'run' string: unterminated single quote"@))
            &&& is_quotable(t) ==> program(front + (seq!['"'] + t)) == Err::<ProgramView, ErrorView>(
                ErrorView::Config("'run' string: unterminated double quote"@),
            )
            &&& !t.contains('}') ==> program(front + (seq!['$', '{'] + t)) == Err::<
                ProgramView,
                ErrorView,
            >(ErrorView::Config("'run' string: unterminated '${...}'"@))
            &&& program(front + (seq!['$', '('] + rest)) is Err
            &&& !t.contains('}') && !is_plain_name(t) ==> program(
                front + (seq!['$', '{'] + t + seq!['}'] + rest),
            ) is Err
        }),
{
    text::law_white_space('\'');
    text::law_white_space('"');
    text::law_white_space('$');
    let f = written_command(c, c.len() as int);
    let n = f.len() as int + 1;
    if !t.contains('\'') {
        let s = f + seq![' '] + (seq!['\''] + t);
        let all = lemma_read_front(s, c, seq!['\''] + t);
        assert(s[n] == '\'');
        text::lemma_index_from(s, '\'', n + 1);
        let close = text::index_from(s, '\'', n + 1);
        if close < s.len() {
            assert(s[close] == t[close - n - 1]);
            assert(t.contains('\''));
        }
        assert(command(s, n, all, None) is Err);
    }
    if is_quotable(t) {
        let s = f + seq![' '] + (seq!['"'] + t);
        let all = lemma_read_front(s, c, seq!['"'] + t);
        assert(s[n] == '"');
        let none = Seq::<PartView>::empty();
        assert(s.subrange(n + 1, n + 1 + t.len()) =~= t);
        if t.len() > 0 {
            lemma_double_run(s, n + 1, t, none);
            assert(double_quoted(s, s.len() as int, push_part(none, PartView::Quoted(t))) is Err);
        }
        assert(double_quoted(s, n + 1, none) is Err);
        assert(command(s, n, all, None) is Err);
    }
    if !t.contains('}') {
        let s = f + seq![' '] + (seq!['$', '{'] + t);
        let all = lemma_read_front(s, c, seq!['$', '{'] + t);
        assert(s[n] == '$' && s[n + 1] == '{');
        text::lemma_index_from(s, '}', n + 2);
        let close = text::index_from(s, '}', n + 2);
        if close < s.len() {
            assert(s[close] == t[close - n - 2]);
            assert(t.contains('}'));
        }
        assert(command(s, n, all, None) is Err);
    }
    let s = f + seq![' '] + (seq!['$', '('] + rest);
    let all = lemma_read_front(s, c, seq!['$', '('] + rest);
    assert(s[n] == '$' && s[n + 1] == '(');
    assert(command(s, n, all, None) is Err);
    if !t.contains('}') && !is_plain_name(t) {
        let s = f + seq![' '] + (seq!['$', '{'] + t + seq!['}'] + rest);
        let all = lemma_read_front(s, c, seq!['$', '{'] + t + seq!['}'] + rest);
        assert(s[n] == '$' && s[n + 1] == '{');
        assert(s[n + 2 + t.len()] == '}');
        text::lemma_index_from(s, '}', n + 2);
        let close = text::index_from(s, '}', n + 2);
        if close < n + 2 + t.len() {
            assert(s[close] == t[close - n - 2]);
            assert(t.contains('}'));
        }
        assert(s.subrange(n + 2, close) =~= t);
        assert(!is_var_name(t)) by {
            if is_var_name(t) {
                assert forall|i: int| 0 <= i < t.len() implies {
                    let c = #[trigger] t[i];
                    ('a' <= c && c <= 'z') || ('A' <= c && c <= 'Z') || ('0' <= c && c <= '9') || c
                        == '_'
                } by {
                    assert(text::is_name_char(t[i]));
                    text::law_character_classes(t[i]);
                }
                text::law_character_classes(t[0]);
            }
        }
        assert(command(s, n, all, None) is Err);
    }
}

/// A separator needs a command on either side.
pub proof fn law_missing_commands(c: Seq<Seq<Piece>>, sep: Sep)
    requires
        c.len() > 0,
        forall|i: int| 0 <= i < c.len() ==> is_written(#[trigger] c[i]),
    ensures
        program(Seq::empty()) == Err::<ProgramView, ErrorView>(
            ErrorView::Config("'run' string: missing command"@),
        ),
        program(written_command(c, c.len() as int) + seq![' '] + written_sep(sep)) == Err::<
            ProgramView,
            ErrorView,
        >(ErrorView::Config("'run' string: missing command around '&&'/'||'/';'"@)),
        program(written_sep(sep)) == Err::<ProgramView, ErrorView>(
            ErrorView::Config("'run' string: missing command"@),
        ),
{
    let none = Seq::<char>::empty();
    let no_words = Seq::<WordView>::empty();
    reveal_with_fuel(sequence, 3);
    assert(command(none, 0, no_words, None) == Ok::<(CommandView, int), ErrorView>((no_words, 0)));
    assert(sequence(none, 0, Seq::empty(), Seq::empty())->Ok_0.0[0] == no_words);
    let t = written_sep(sep);
    let m = t.len() as int;
    assert(separator(t, 0) == Some((sep, m)));
    assert(command(t, 0, no_words, None) == Ok::<(CommandView, int), ErrorView>((no_words, 0)));
    assert(command(t, m, no_words, None) == Ok::<(CommandView, int), ErrorView>((no_words, m)));
    let two = Seq::<CommandView>::empty().push(no_words).push(no_words);
    assert(sequence(t, 0, Seq::empty(), Seq::empty())->Ok_0.0 == two);
    assert(two[0] == no_words);
    let f = written_command(c, c.len() as int);
    let s = f + seq![' '] + t;
    let n = f.len() as int + 1;
    let all = lemma_read_front(s, c, t);
    assert(s[n] == t[0]);
    if m == 2 {
        assert(s[n + 1] == t[1]);
    }
    assert(separator(s, n) == Some((sep, n + m)));
    assert(command(s, n, all, None) == Ok::<(CommandView, int), ErrorView>((all, n)));
    assert(command(s, n + m, no_words, None) == Ok::<(CommandView, int), ErrorView>(
        (no_words, n + m),
    ));
    let both = Seq::<CommandView>::empty().push(all).push(no_words);
    assert(sequence(s, 0, Seq::empty(), Seq::empty())->Ok_0.0 == both);
    assert(both[0] == all);
    assert(both[1].len() == 0);
}

proof fn lemma_closes(s: Seq<char>, pos: int, end: int, comma: bool)
    requires
        0 <= pos <= end < s.len(),
        s[end] == '}',
        forall|i: int| pos <= i < end ==> #[trigger] s[i] != '{' && s[i] != '}',
    ensures
        closes_with_comma(s, pos, 0, comma) == (comma || exists|i: int|
            pos <= i < end && #[trigger] s[i] == ','),
    decreases end - pos,
{
    if pos < end {
        assert(s[pos] != '{' && s[pos] != '}');
        lemma_closes(s, pos + 1, end, comma || s[pos] == ',');
        if s[pos] == ',' {
            assert(exists|i: int| pos <= i < end && #[trigger] s[i] == ',');
        }
    }
}

/// A pair of braces is a group exactly if there is a comma in it; a group outside quotes
/// is refused.
#[verifier::spinoff_prover]
#[verifier::rlimit(80)]
pub proof fn law_brace_groups(front: Seq<char>, inner: Seq<char>, back: Seq<char>)
    requires
        !front.contains('{'),
        !inner.contains('{'),
        !inner.contains('}'),
        !back.contains('{'),
    ensures
        has_brace_group(front + seq!['{'] + inner + seq!['}'] + back) <==> inner.contains(','),
        ({
            let s = front + seq!['{'] + inner + seq!['}'] + back;
            (forall|i: int| 0 <= i < s.len() ==> is_bare_char(#[trigger] s[i])) && inner.contains(
                ',',
            ) ==> program(s) == Err::<ProgramView, ErrorView>(
                ErrorView::Config(
                    "'run' string uses '{a,b}' (brace expansion), which is unsupported — list the paths explicitly, or quote the braces"@,
                ),
            )
        }),
{
    let s = front + seq!['{'] + inner + seq!['}'] + back;
    let open = front.len() as int;
    let end = open + 1 + inner.len();
    assert(s[open] == '{');
    assert(s[end] == '}');
    assert forall|i: int| open + 1 <= i < end implies #[trigger] s[i] != '{' && s[i] != '}' by {
        assert(s[i] == inner[i - open - 1]);
    }
    lemma_closes(s, open + 1, end, false);
    if inner.contains(',') {
        let k = choose|k: int| 0 <= k < inner.len() && inner[k] == ',';
        assert(s[open + 1 + k] == ',');
    }
    if exists|i: int| open + 1 <= i < end && #[trigger] s[i] == ',' {
        let i = choose|i: int| open + 1 <= i < end && #[trigger] s[i] == ',';
        assert(inner[i - open - 1] == ',');
    }
    if has_brace_group(s) {
        let i = choose|i: int|
            0 <= i < s.len() && #[trigger] s[i] == '{' && closes_with_comma(s, i + 1, 0, false);
        if i < open {
            assert(front[i] == '{');
        } else if i > end {
            assert(back[i - end - 1] == '{');
        }
        assert(i == open);
    }
    if (forall|i: int| 0 <= i < s.len() ==> is_bare_char(#[trigger] s[i])) && inner.contains(',') {
        assert(s.subrange(0, s.len() as int) =~= s);
        let none = Seq::<WordView>::empty();
        lemma_plain_run(s, 0, s, none, None);
        let w = push_part(Seq::empty(), PartView::Bare(s));
        assert(w =~= seq![PartView::Bare(s)]);
        lemma_push_part(Seq::empty(), PartView::Bare(s), Map::empty());
        assert(bare_text(w) =~= s);
        let c = none.push(w);
        assert(command(s, 0, none, None) == Ok::<(CommandView, int), ErrorView>(
            (c, s.len() as int),
        ));
        let cs = Seq::<CommandView>::empty().push(c);
        assert(sequence(s, 0, Seq::empty(), Seq::empty()) == Ok::<
            (Seq<CommandView>, Seq<Sep>),
            ErrorView,
        >((cs, Seq::empty())));
        assert(cs[0] == c);
        assert(c[0] == w);
        assert(has_brace_expansion(cs[0]));
    }
}

/// A command behind `&&` runs if the one before it succeeded, behind `||` if it failed,
/// and behind `;` in any case.
pub proof fn law_separators(prev: i32)
    ensures
        Sep::And.spec_proceeds(prev) <==> prev == 0,
        Sep::Or.spec_proceeds(prev) <==> prev != 0,
        Sep::Semi.spec_proceeds(prev),
{
}

/// The variable that is reported is the first that is not set; none is where all are.
pub proof fn law_the_first_undefined(vars: Seq<VarView>, env: Map<Seq<char>, Seq<char>>, i: int)
    ensures
        first_undefined(vars, env) is None <==> forall|k: int|
            0 <= k < vars.len() ==> env.contains_key((#[trigger] vars[k]).name),
        0 <= i < vars.len() && !env.contains_key(vars[i].name) && (forall|k: int|
            0 <= k < i ==> env.contains_key((#[trigger] vars[k]).name)) ==> first_undefined(vars, env)
            == Some(vars[i]),
    decreases vars.len(),
{
    if vars.len() > 0 {
        let front = vars.drop_last();
        law_the_first_undefined(front, env, i);
        if forall|k: int| 0 <= k < vars.len() ==> env.contains_key((#[trigger] vars[k]).name) {
            assert forall|k: int| 0 <= k < front.len() implies env.contains_key(
                (#[trigger] front[k]).name,
            ) by {
                assert(vars[k] == front[k]);
            }
            assert(env.contains_key(vars[vars.len() - 1].name));
        }
        if first_undefined(vars, env) is None {
            assert forall|k: int| 0 <= k < vars.len() implies env.contains_key(
                (#[trigger] vars[k]).name,
            ) by {
                if k < front.len() {
                    assert(front[k] == vars[k]);
                }
            }
        }
        if 0 <= i < vars.len() && !env.contains_key(vars[i].name) && (forall|k: int|
            0 <= k < i ==> env.contains_key((#[trigger] vars[k]).name)) {
            assert forall|k: int| 0 <= k < i && k < front.len() implies env.contains_key(
                (#[trigger] front[k]).name,
            ) by {
                assert(vars[k] == front[k]);
            }
            if i < front.len() {
                assert(front[i] == vars[i]);
            }
        }
    }
}

/// Quoting a text for a pattern puts each `*`, `?`, `[` and `]` in brackets and leaves
/// every other character as it is.
pub proof fn law_quoted_for_a_pattern(a: Seq<char>, c: char, b: Seq<char>)
    ensures
        escaped(a + b) == escaped(a) + escaped(b),
        c == '*' || c == '?' || c == '[' || c == ']' ==> escaped(seq![c]) == seq!['[', c, ']'],
        c != '*' && c != '?' && c != '[' && c != ']' ==> escaped(seq![c]) == seq![c],
        escaped(Seq::<char>::empty()) == Seq::<char>::empty(),
{
    lemma_escaped_sum(a, b);
    let one = seq![c];
    assert(one.drop_last() =~= Seq::empty());
    assert(one.last() == c);
    reveal_with_fuel(escaped, 2);
    assert(escaped(one) =~= if c == '?' || c == '*' || c == '[' || c == ']' {
        seq!['[', c, ']']
    } else {
        seq![c]
    });
}

/// A word becomes a pattern exactly if it has a glob character outside quotes; if nothing
/// matches, it stays the text that it stands for.
pub proof fn law_words_are_expanded(
    r: WordView,
    w: Seq<Piece>,
    env: Map<Seq<char>, Seq<char>>,
    dir: Seq<char>,
)
    requires
        reads_as(r, w, w.len() as int),
    ensures
        (exists|i: int| 0 <= i < w.len() && globs(#[trigger] w[i])) ==> expanded_word(r, env)
            == (ArgView::Pattern {
            pattern: meant_word_pattern(w, w.len() as int, env),
            literal: meant_word(w, w.len() as int, env),
        }),
        !(exists|i: int| 0 <= i < w.len() && globs(#[trigger] w[i])) ==> expanded_word(r, env)
            == ArgView::Literal(meant_word(w, w.len() as int, env)),
        arg_words(dir, expanded_word(r, env), Seq::empty()) == seq![
            meant_word(w, w.len() as int, env),
        ],
{
    assert(word_text(r, env) == meant_word(w, w.len() as int, env));
    assert(word_pattern(r, env) == meant_word_pattern(w, w.len() as int, env));
}

/// A pattern is looked for below the job's directory, unless it is absolute; the
/// directory's own characters are no pattern.
pub proof fn law_where_patterns_look(dir: Seq<char>, pattern: Seq<char>)
    ensures
        pattern.len() > 0 && pattern[0] == '/' ==> glob_query(dir, pattern) == pattern,
        (pattern.len() == 0 || pattern[0] != '/') && dir.len() > 0 && escaped(dir).len() > 0
            && escaped(dir).last() != '/' && escaped(dir).last() != '\\' ==> glob_query(dir, pattern)
            == escaped(dir) + seq!['/'] + pattern,
        pattern.len() == 0 || pattern[0] != '/' ==> glob_query(dir + seq!['/'], pattern)
            == glob_query(dir, pattern),
{
    if pattern.len() == 0 || pattern[0] != '/' {
        law_quoted_for_a_pattern(dir, '/', seq!['/']);
        let d = escaped(dir) + seq!['/'];
        assert(escaped(dir + seq!['/']) == d);
        assert(d.drop_last() =~= escaped(dir));
    }
}

/// What a pattern found comes in the order of the texts, each as the pattern was written:
/// seen from the directory, or in full where the pattern is absolute.
pub proof fn law_found_words(dir: Seq<char>, pattern: Seq<char>, found: Seq<Seq<char>>)
    ensures
        ({
            let r = glob_words(dir, pattern, found);
            &&& forall|i: int, j: int|
                0 <= i < j < r.len() ==> text::le(#[trigger] r[i], #[trigger] r[j])
            &&& pattern.len() > 0 && pattern[0] == '/' ==> r.to_multiset() == Seq::new(
                found.len(),
                |i: int| path::slashed(found[i]),
            ).to_multiset()
            &&& pattern.len() == 0 || pattern[0] != '/' ==> r.to_multiset() == Seq::new(
                found.len(),
                |i: int| path::relative(dir, found[i]),
            ).to_multiset()
        }),
{
    let each = Seq::new(
        found.len(),
        |i: int|
            if path::is_absolute(pattern) {
                path::slashed(found[i])
            } else {
                path::relative(dir, found[i])
            },
    );
    let leq = |a: Seq<char>, b: Seq<char>| text::le(a, b);
    text::lemma_le_is_total_order();
    each.lemma_sort_by_ensures(leq);
    let r = glob_words(dir, pattern, found);
    assert(r == text::in_order(each));
    assert(vstd::relations::sorted_by(r, leq));
    assert forall|i: int, j: int| 0 <= i < j < r.len() implies text::le(
        #[trigger] r[i],
        #[trigger] r[j],
    ) by {
        assert(leq(r[i], r[j]));
    }
    if path::is_absolute(pattern) {
        assert(each =~= Seq::new(found.len(), |i: int| path::slashed(found[i])));
    } else {
        assert(each =~= Seq::new(found.len(), |i: int| path::relative(dir, found[i])));
    }
}

/// The arguments of a command are those of its words, one word after the other.
pub proof fn law_arguments_keep_their_order(
    dir: Seq<char>,
    args: Seq<ArgView>,
    last: ArgView,
    found: Seq<Option<Vec<String>>>,
)
    ensures
        argv_words(dir, args.push(last), found) == argv_words(dir, args, found) + arg_words(
            dir,
            last,
            found_at(found, args.len() as int),
        ),
        argv_words(dir, Seq::empty(), found) == Seq::<Seq<char>>::empty(),
        forall|s: Seq<char>, f: Seq<Seq<char>>| #[trigger]
            arg_words(dir, ArgView::Literal(s), f) == seq![s],
        forall|p: Seq<char>, l: Seq<char>, f: Seq<Seq<char>>|
            f.len() > 0 ==> #[trigger] arg_words(dir, ArgView::Pattern { pattern: p, literal: l }, f)
                == glob_words(dir, p, f),
{
    assert(args.push(last).drop_last() =~= args);
}

/// A separator is seen wherever it stands, with or without white space around it: `;`,
/// `&&` and `||`, and nothing else is one.
pub proof fn law_separators_are_seen(s: Seq<char>, pos: int)
    requires
        0 <= pos < s.len(),
    ensures
        s[pos] == ';' ==> separator(s, pos) == Some((Sep::Semi, pos + 1)),
        s[pos] == '&' && pos + 1 < s.len() && s[pos + 1] == '&' ==> separator(s, pos) == Some(
            (Sep::And, pos + 2),
        ),
        s[pos] == '|' && pos + 1 < s.len() && s[pos + 1] == '|' ==> separator(s, pos) == Some(
            (Sep::Or, pos + 2),
        ),
        separator(s, pos) is Some ==> s[pos] == ';' || (pos + 1 < s.len() && s[pos] == s[pos + 1]
            && (s[pos] == '&' || s[pos] == '|')),
{
}

/// A word ends at white space of any kind and at a separator, and a command at a separator
/// and at the end; any other character outside quotes goes on with the word.
pub proof fn law_where_words_end(
    s: Seq<char>,
    pos: int,
    words: CommandView,
    w: WordView,
)
    requires
        0 <= pos <= s.len(),
    ensures
        pos == s.len() || separator(s, pos) is Some ==> command(s, pos, words, Some(w)) == Ok::<
            (CommandView, int),
            ErrorView,
        >((words.push(w), pos)),
        pos < s.len() && text::is_space(s[pos]) ==> command(s, pos, words, Some(w)) == command(
            s,
            pos + 1,
            words.push(w),
            None,
        ) && command(s, pos, words, None) == command(s, pos + 1, words, None),
        pos < s.len() && is_bare_char(s[pos]) ==> command(s, pos, words, Some(w)) == command(
            s,
            pos + 1,
            words,
            Some(push_part(w, PartView::Bare(seq![s[pos]]))),
        ),
{
    if pos < s.len() && text::is_space(s[pos]) {
        text::law_white_space(';');
        text::law_white_space('&');
        text::law_white_space('|');
        assert(separator(s, pos) is None);
    }
}

} // verus!
