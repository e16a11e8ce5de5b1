//! The terminal editor for `tasks.toml`: what each key does, what is written and
//! what is shown.
//!
//! Edits go through the document, so comments and unknown keys survive: see
//! [`crate::edit`]. A change is written as soon as it is made, and a form only if
//! the whole config it leads to is valid: there is no unsaved state, and no form
//! breaks the config. Reading keys, writing the file and drawing is the caller's
//! part.

use vstd::prelude::*;

use crate::config;
use crate::edit;
use crate::error;
use crate::error::{ErrorView, TsrError};
use crate::form;
use crate::form::{Field, FormState, FormView, FIELDS};
use crate::text;
use crate::toml;
use crate::toml::{Entries, Toml, TomlView};

verus! {

// ---------------------------------------------------------------------------
// The state
// ---------------------------------------------------------------------------
/// A key that was pressed.
#[derive(Debug, Clone, Copy, PartialEq, Eq, Structural)]
pub enum Key {
    Char(char),
    Enter,
    Esc,
    Up,
    Down,
    Left,
    Right,
    Tab,
    Backspace,
    Other,
}

/// What a task is picked for.
#[derive(Debug, Clone, Copy, PartialEq, Eq, Structural)]
pub enum ListPurpose {
    Edit,
    Delete,
}

/// An entry of the menu.
#[derive(Debug, Clone, Copy, PartialEq, Eq, Structural)]
pub enum MenuItem {
    Add,
    Edit,
    Delegate,
    Delete,
    Graph,
    Quit,
}

/// How many entries the menu has.
pub const MENU_ITEMS: usize = 6;

/// What the editor shows.
#[derive(Debug)]
pub enum Mode {
    /// The menu.
    Menu,
    /// The tasks, to pick one.
    List(ListPurpose),
    /// A form.
    Form(FormState),
    /// The preview, of one task or of all.
    Graph { focus: Option<String>, scroll: u16 },
    /// Whether a task is to be deleted.
    ConfirmDelete(String),
}

/// A change that is being written.
#[derive(Debug)]
pub enum Pending {
    Nothing,
    /// The task of this name was saved.
    Saving(String),
    /// The task with this key was deleted.
    Deleting(String),
}

/// The editor.
pub struct App {
    /// The file that is edited.
    pub path: String,
    /// The directory it is in.
    pub root: String,
    pub doc: toml_edit::DocumentMut,
    /// The keys of the tasks, in order.
    pub tasks: Vec<String>,
    /// The task that is picked.
    pub selected: usize,
    /// The entry of the menu that is picked.
    pub menu: usize,
    pub mode: Mode,
    pub status: String,
    pub quit: bool,
    pub pending: Pending,
}

/// What the editor shows.
pub enum ModeView {
    Menu,
    List(ListPurpose),
    Form(FormView),
    Graph { focus: Option<Seq<char>>, scroll: int },
    ConfirmDelete(Seq<char>),
}

/// A change that is being written.
pub enum PendingView {
    Nothing,
    Saving(Seq<char>),
    Deleting(Seq<char>),
}

/// The editor, but for the document.
pub struct AppView {
    pub path: Seq<char>,
    pub root: Seq<char>,
    pub tasks: Seq<Seq<char>>,
    pub selected: int,
    pub menu: int,
    pub mode: ModeView,
    pub status: Seq<char>,
    pub quit: bool,
    pub pending: PendingView,
}

impl View for Mode {
    type V = ModeView;

    open spec fn view(&self) -> ModeView {
        match self {
            Mode::Menu => ModeView::Menu,
            Mode::List(p) => ModeView::List(*p),
            Mode::Form(f) => ModeView::Form(f@),
            Mode::Graph { focus, scroll } => ModeView::Graph {
                focus: config::opt_text(*focus),
                scroll: *scroll as int,
            },
            Mode::ConfirmDelete(k) => ModeView::ConfirmDelete(k@),
        }
    }
}

impl View for Pending {
    type V = PendingView;

    open spec fn view(&self) -> PendingView {
        match self {
            Pending::Nothing => PendingView::Nothing,
            Pending::Saving(s) => PendingView::Saving(s@),
            Pending::Deleting(s) => PendingView::Deleting(s@),
        }
    }
}

impl View for App {
    type V = AppView;

    open spec fn view(&self) -> AppView {
        AppView {
            path: self.path@,
            root: self.root@,
            tasks: text::texts(self.tasks@),
            selected: self.selected as int,
            menu: self.menu as int,
            mode: self.mode@,
            status: self.status@,
            quit: self.quit,
            pending: self.pending@,
        }
    }
}

impl MenuItem {
    /// The entry at a position.
    pub open spec fn spec_at(i: int) -> MenuItem {
        if i == 0 {
            MenuItem::Add
        } else if i == 1 {
            MenuItem::Edit
        } else if i == 2 {
            MenuItem::Delegate
        } else if i == 3 {
            MenuItem::Delete
        } else if i == 4 {
            MenuItem::Graph
        } else {
            MenuItem::Quit
        }
    }

    /// The entry at a position.
    pub fn at(i: usize) -> (r: MenuItem)
        ensures
            r == MenuItem::spec_at(i as int),
    {
        if i == 0 {
            MenuItem::Add
        } else if i == 1 {
            MenuItem::Edit
        } else if i == 2 {
            MenuItem::Delegate
        } else if i == 3 {
            MenuItem::Delete
        } else if i == 4 {
            MenuItem::Graph
        } else {
            MenuItem::Quit
        }
    }

    /// What the entry is called, and what it is for.
    pub open spec fn spec_label_hint(self) -> (Seq<char>, Seq<char>) {
        match self {
            MenuItem::Add => ("Add a task"@, "create a run / auto-detect task"@),
            MenuItem::Edit => ("Edit a task"@, "pick a task and change its options"@),
            MenuItem::Delegate => ("Delegate a task"@, "hand a task to turbo / make / nx / …"@),
            MenuItem::Delete => ("Delete a task"@, "pick a task and remove it"@),
            MenuItem::Graph => ("Preview graph"@, "dependency tree & dry-run commands"@),
            MenuItem::Quit => ("Quit"@, "every change is already saved"@),
        }
    }

    /// What the entry is called, and what it is for.
    pub fn label_hint(self) -> (r: (&'static str, &'static str))
        ensures
            (r.0@, r.1@) == self.spec_label_hint(),
    {
        match self {
            MenuItem::Add => ("Add a task", "create a run / auto-detect task"),
            MenuItem::Edit => ("Edit a task", "pick a task and change its options"),
            MenuItem::Delegate => ("Delegate a task", "hand a task to turbo / make / nx / …"),
            MenuItem::Delete => ("Delete a task", "pick a task and remove it"),
            MenuItem::Graph => ("Preview graph", "dependency tree & dry-run commands"),
            MenuItem::Quit => ("Quit", "every change is already saved"),
        }
    }
}

// ---------------------------------------------------------------------------
// The document
// ---------------------------------------------------------------------------
/// The keys of the entries.
pub open spec fn keys_of(e: Entries) -> Seq<Seq<char>> {
    Seq::new(e.len(), |i: int| e[i].0)
}

/// The keys of the tasks of a document, in order.
pub open spec fn keys_in(doc: Entries) -> Seq<Seq<char>> {
    match toml::table_at(doc, "tasks"@) {
        Some(e) => text::in_order(keys_of(e)),
        None => Seq::empty(),
    }
}

/// The keys of the tasks of a document, in order.
pub fn task_keys(doc: &Vec<(String, Toml)>) -> (r: Vec<String>)
    ensures
        text::texts(r@) == keys_in(toml::entry_views(doc@)),
{
    let mut keys: Vec<String> = Vec::new();
    let entries = match toml::get_table(doc, "tasks") {
        Some(e) => e,
        None => {
            assert(text::texts(keys@) =~= Seq::empty());
            return keys;
        },
    };
    let ghost all = toml::entry_views(entries@);
    let mut i: usize = 0;
    while i < entries.len()
        invariant
            i <= entries.len(),
            all == toml::entry_views(entries@),
            keys.len() == i,
            forall|j: int| 0 <= j < i ==> (#[trigger] keys@[j])@ == all[j].0,
        decreases entries.len() - i,
    {
        keys.push(entries[i].0.clone());
        i += 1;
    }
    assert(text::texts(keys@) =~= keys_of(all));
    text::sort(keys)
}

/// What a task runs, for its description.
pub open spec fn runs_part(t: Entries) -> Option<Seq<char>> {
    match toml::lookup(t, "run"@) {
        Some(TomlView::Str(run)) => Some("run: "@ + run),
        _ => match toml::lookup(t, "delegate"@) {
            Some(TomlView::Str(bin)) => Some("delegate: "@ + bin),
            Some(_) => Some("delegate (custom)"@),
            None => None,
        },
    }
}

/// A labelled list, where there is something under the key.
pub open spec fn list_part(t: Entries, key: Seq<char>, label: Seq<char>) -> Option<Seq<char>> {
    match toml::lookup(t, key) {
        Some(v) => Some(label + form::csv_text(Some(v))),
        None => None,
    }
}

/// The parts of a task's description.
pub open spec fn parts_of(t: Entries) -> Seq<Seq<char>> {
    let parts = crate::cli::with_part(Seq::empty(), runs_part(t));
    let parts = crate::cli::with_part(parts, list_part(t, "packages"@, "packages: "@));
    let parts = crate::cli::with_part(parts, list_part(t, "deps"@, "deps: "@));
    if toml::lookup(t, "parallel"@) == Some(TomlView::Bool(true)) {
        parts.push("parallel"@)
    } else {
        parts
    }
}

/// A task's form in one line; empty for something that is no table.
pub open spec fn description(doc: Entries, key: Seq<char>) -> Seq<char> {
    match form::task_table(doc, key) {
        None => Seq::empty(),
        Some(t) => if parts_of(t).len() == 0 {
            "auto"@
        } else {
            text::joined(parts_of(t), "  ·  "@)
        },
    }
}

fn push_part(parts: &mut Vec<String>, part: String)
    ensures
        text::texts(final(parts)@) == text::texts(old(parts)@).push(part@),
{
    let ghost before = text::texts(parts@);
    let ghost seen = part@;
    parts.push(part);
    assert(text::texts(parts@) =~= before.push(seen));
}

/// A task's form in one line.
pub fn describe(doc: &Vec<(String, Toml)>, key: &str) -> (r: String)
    ensures
        r@ == description(toml::entry_views(doc@), key@),
{
    let t = match form::find_table(doc, key) {
        Some(t) => t,
        None => return String::new(),
    };
    let mut parts: Vec<String> = Vec::new();
    assert(text::texts(parts@) =~= Seq::<Seq<char>>::empty());
    if let Some(run) = toml::get_str(t, "run") {
        push_part(&mut parts, text::join2("run: ", run.as_str()));
    } else if let Some(d) = toml::get(t, "delegate") {
        if let Some(bin) = d.as_str() {
            push_part(&mut parts, text::join2("delegate: ", bin.as_str()));
        } else {
            push_part(&mut parts, "delegate (custom)".to_string());
        }
    }
    let packages = toml::get(t, "packages");
    if packages.is_some() {
        push_part(&mut parts, text::join2("packages: ", form::join_csv(packages).as_str()));
    }
    let deps = toml::get(t, "deps");
    if deps.is_some() {
        push_part(&mut parts, text::join2("deps: ", form::join_csv(deps).as_str()));
    }
    if let Some(p) = toml::get(t, "parallel") {
        if let Some(b) = p.as_bool() {
            if b {
                push_part(&mut parts, "parallel".to_string());
            }
        }
    }
    assert(text::texts(parts@) == parts_of(toml::entry_views(t@)));
    if parts.len() == 0 {
        "auto".to_string()
    } else {
        text::join(&parts, "  ·  ")
    }
}

/// Put a form's task into a document; the task's name. What is wrong with the form
/// is said here, what is wrong with the config it leads to is not.
pub fn apply_form(doc: &mut toml_edit::DocumentMut, form: &FormState) -> (r: Result<String, String>)
    ensures
        match r {
            Ok(name) => form::task_of(form@) matches Ok(t) && t.0 == name@ && toml::content(
                *final(doc),
            ) == edit::applied(toml::content(*old(doc)), form@.original, t.0, t.1),
            Err(m) => form::task_of(form@) == Err::<(Seq<char>, Entries), Seq<char>>(m@)
                && *final(doc) == *old(doc),
        },
{
    let (name, fields) = match form::build_task_table(form) {
        Ok(t) => t,
        Err(m) => return Err(m),
    };
    edit::put_task(doc, &form.original, name.as_str(), &fields);
    Ok(name)
}

/// What is wrong with a text as a config, if anything.
pub open spec fn verdict(t: Seq<char>) -> Option<Seq<char>> {
    match config::valid_config(toml::toml_entries(t), "."@) {
        Ok(_) => None,
        Err(e) => Some(error::bare(e)),
    }
}

/// What is wrong with a text as a config, if anything.
pub fn judge(t: &str) -> (r: Option<String>)
    ensures
        config::opt_text(r) == verdict(t@),
{
    match config::validate_str(t) {
        Ok(_) => None,
        Err(e) => Some(e.bare_message()),
    }
}

// ---------------------------------------------------------------------------
// Keys
// ---------------------------------------------------------------------------
/// The task that is picked.
pub open spec fn picked(a: AppView) -> Option<Seq<char>> {
    if 0 <= a.selected < a.tasks.len() {
        Some(a.tasks[a.selected])
    } else {
        None
    }
}

/// The editor after the tasks were opened to pick one; where there is none, with
/// a word about that instead.
pub open spec fn with_picker(a: AppView, purpose: ListPurpose) -> AppView {
    if a.tasks.len() == 0 {
        AppView { status: "no tasks yet — choose \"Add a task\" first"@, ..a }
    } else {
        AppView { selected: 0, mode: ModeView::List(purpose), ..a }
    }
}

/// The editor after an entry of the menu was chosen.
pub open spec fn activated(a: AppView, item: MenuItem) -> AppView {
    let b = AppView { status: Seq::empty(), ..a };
    match item {
        MenuItem::Add => AppView { mode: ModeView::Form(form::blank()), ..b },
        MenuItem::Delegate => AppView {
            mode: ModeView::Form(form::with_choice(form::blank(), Field::Kind, 1)),
            ..b
        },
        MenuItem::Edit => with_picker(b, ListPurpose::Edit),
        MenuItem::Delete => with_picker(b, ListPurpose::Delete),
        MenuItem::Graph => AppView { mode: ModeView::Graph { focus: None, scroll: 0 }, ..b },
        MenuItem::Quit => AppView { quit: true, ..b },
    }
}

/// Whether a key goes down.
pub open spec fn is_down(key: Key) -> bool {
    key == Key::Down || key == Key::Char('j')
}

/// Whether a key goes up.
pub open spec fn is_up(key: Key) -> bool {
    key == Key::Up || key == Key::Char('k')
}

/// The editor after a key in the menu.
pub open spec fn menu_key(a: AppView, key: Key) -> AppView {
    if key == Key::Char('q') || key == Key::Esc {
        AppView { quit: true, ..a }
    } else if is_down(key) {
        AppView { menu: form::option_after(a.menu, MENU_ITEMS as int), ..a }
    } else if is_up(key) {
        AppView { menu: form::option_before(a.menu, MENU_ITEMS as int), ..a }
    } else if key == Key::Enter || key == Key::Char(' ') {
        activated(a, MenuItem::spec_at(a.menu))
    } else {
        a
    }
}

/// The editor after a key in the list of tasks.
pub open spec fn list_key(a: AppView, doc: Entries, purpose: ListPurpose, key: Key) -> AppView {
    if key == Key::Esc || key == Key::Char('q') {
        AppView { mode: ModeView::Menu, ..a }
    } else if is_down(key) {
        if a.tasks.len() == 0 {
            a
        } else {
            AppView { selected: form::option_after(a.selected, a.tasks.len() as int), ..a }
        }
    } else if is_up(key) {
        if a.tasks.len() == 0 {
            a
        } else {
            AppView { selected: form::option_before(a.selected, a.tasks.len() as int), ..a }
        }
    } else if key == Key::Char('g') {
        AppView {
            status: Seq::empty(),
            mode: ModeView::Graph { focus: picked(a), scroll: 0 },
            ..a
        }
    } else if key == Key::Enter {
        match picked(a) {
            None => a,
            Some(k) => match purpose {
                ListPurpose::Edit => AppView {
                    status: Seq::empty(),
                    mode: ModeView::Form(form::form_of(doc, k)),
                    ..a
                },
                ListPurpose::Delete => AppView { mode: ModeView::ConfirmDelete(k), ..a },
            },
        }
    } else {
        a
    }
}

/// The editor after a key in the preview.
pub open spec fn graph_key(a: AppView, focus: Option<Seq<char>>, scroll: int, key: Key) -> AppView {
    if key == Key::Esc || key == Key::Char('q') || key == Key::Char('g') {
        AppView { mode: ModeView::Menu, ..a }
    } else if key == Key::Char('a') || key == Key::Char('G') {
        AppView { mode: ModeView::Graph { focus: None, scroll: 0 }, ..a }
    } else if is_down(key) {
        AppView {
            mode: ModeView::Graph {
                focus,
                scroll: if scroll < u16::MAX {
                    scroll + 1
                } else {
                    scroll
                },
            },
            ..a
        }
    } else if is_up(key) {
        AppView {
            mode: ModeView::Graph {
                focus,
                scroll: if scroll > 0 {
                    scroll - 1
                } else {
                    scroll
                },
            },
            ..a
        }
    } else {
        AppView { mode: ModeView::Graph { focus, scroll }, ..a }
    }
}

/// Whether a key saves a form.
pub open spec fn is_save(key: Key, ctrl: bool) -> bool {
    key == Key::Enter || (ctrl && key == Key::Char('s'))
}

/// A form after a key that changes nothing but the form.
pub open spec fn form_key(f: FormView, key: Key, ctrl: bool) -> FormView {
    match key {
        Key::Up => FormView { focus: form::prev_field(f, f.focus, FIELDS as nat), ..f },
        Key::Down => FormView { focus: form::next_field(f, f.focus, FIELDS as nat), ..f },
        Key::Tab => FormView { focus: form::next_field(f, f.focus, FIELDS as nat), ..f },
        Key::Left => form::adjusted(f, false),
        Key::Right => form::adjusted(f, true),
        Key::Backspace => {
            let s = form::text_of(f, f.focus);
            form::with_text(
                f,
                f.focus,
                if s.len() > 0 {
                    s.drop_last()
                } else {
                    s
                },
            )
        },
        Key::Char(c) => if c == ' ' && !form::is_text(f.focus) {
            form::adjusted(f, true)
        } else if !ctrl {
            form::with_text(f, f.focus, form::text_of(f, f.focus).push(c))
        } else {
            f
        },
        _ => f,
    }
}

/// The editor after a key that writes nothing; `None` for one that saves a form
/// or deletes a task.
pub open spec fn pressed(a: AppView, doc: Entries, key: Key, ctrl: bool) -> Option<AppView> {
    match a.mode {
        ModeView::Menu => Some(menu_key(a, key)),
        ModeView::List(purpose) => Some(list_key(a, doc, purpose, key)),
        ModeView::Graph { focus, scroll } => Some(graph_key(a, focus, scroll, key)),
        ModeView::ConfirmDelete(_) => if key == Key::Char('y') {
            None
        } else if key == Key::Char('n') || key == Key::Esc {
            Some(AppView { mode: ModeView::List(ListPurpose::Delete), ..a })
        } else {
            Some(AppView { mode: ModeView::Menu, ..a })
        },
        ModeView::Form(f) => if is_save(key, ctrl) {
            None
        } else if key == Key::Esc {
            Some(AppView { status: "edit cancelled"@, mode: ModeView::Menu, ..a })
        } else {
            Some(AppView { mode: ModeView::Form(form_key(f, key, ctrl)), ..a })
        },
    }
}

/// The editor after the document was changed.
pub open spec fn refreshed(a: AppView, doc: Entries) -> AppView {
    let tasks = keys_in(doc);
    AppView {
        tasks,
        selected: if tasks.len() == 0 {
            0
        } else if a.selected >= tasks.len() {
            tasks.len() - 1
        } else {
            a.selected
        },
        ..a
    }
}

/// Whether a form was dealt with: `t` is the text to write, if the form was
/// committed. A form that is wrong, or whose task would leave the document with a
/// config that is not valid, is left open with the reason, and nothing is changed
/// or written.
pub open spec fn is_committed(
    before: AppView,
    doc: toml_edit::DocumentMut,
    after: AppView,
    new_doc: toml_edit::DocumentMut,
    f: FormView,
    t: Option<Seq<char>>,
) -> bool {
    match form::task_of(f) {
        Err(m) => {
            &&& t is None
            &&& new_doc == doc
            &&& after == AppView {
                mode: ModeView::Form(FormView { error: Some(m), ..f }),
                ..before
            }
        },
        Ok((name, fields)) => match t {
            Some(t) => {
                &&& t == toml::document_text(new_doc)
                &&& toml::shows(t, toml::document_layout(new_doc))
                &&& verdict(t) is None
                &&& toml::content(new_doc) == edit::applied(
                    toml::content(doc),
                    f.original,
                    name,
                    fields,
                )
                &&& after == AppView {
                    mode: ModeView::Form(f),
                    pending: PendingView::Saving(name),
                    ..refreshed(before, toml::document_entries(new_doc))
                }
            },
            None => {
                &&& new_doc == doc
                &&& exists|d: toml_edit::DocumentMut|
                    toml::content(d) == edit::applied(toml::content(doc), f.original, name, fields)
                        && verdict(#[trigger] toml::document_text(d)) is Some && after == (AppView {
                        mode: ModeView::Form(
                            FormView { error: verdict(toml::document_text(d)), ..f },
                        ),
                        ..before
                    })
            },
        },
    }
}

/// Where the editor is after a task was deleted.
pub open spec fn after_delete(a: AppView) -> AppView {
    AppView {
        mode: if a.tasks.len() == 0 {
            ModeView::Menu
        } else {
            ModeView::List(ListPurpose::Delete)
        },
        ..a
    }
}

/// Whether a task was deleted: `t` is the text to write, if there was something to
/// delete from.
pub open spec fn is_deleted(
    before: AppView,
    doc: toml_edit::DocumentMut,
    after: AppView,
    new_doc: toml_edit::DocumentMut,
    key: Seq<char>,
    t: Option<Seq<char>>,
) -> bool {
    if toml::table_at(toml::document_entries(doc), "tasks"@) is Some {
        &&& t == Some(toml::document_text(new_doc))
        &&& toml::shows(t->0, toml::document_layout(new_doc))
        &&& toml::content(new_doc) == edit::deleted(edit::opened(toml::content(doc)), key)
        &&& after == after_delete(
            AppView {
                pending: PendingView::Deleting(key),
                ..refreshed(before, toml::document_entries(new_doc))
            },
        )
    } else {
        &&& t is None
        &&& new_doc == doc
        &&& after == after_delete(before)
    }
}

/// The editor after a change was written, or not, for the given reason. A form
/// whose task could not be written stays open and says so.
pub open spec fn settled(a: AppView, failure: Option<Seq<char>>) -> AppView {
    let b = AppView { pending: PendingView::Nothing, ..a };
    let failed = match failure {
        Some(e) => "write failed: "@ + a.path + " — "@ + e,
        None => Seq::empty(),
    };
    match a.pending {
        PendingView::Nothing => b,
        PendingView::Deleting(key) => AppView {
            status: if failure is Some {
                failed
            } else {
                "deleted '"@ + key + "'"@
            },
            ..b
        },
        PendingView::Saving(name) => if failure is None {
            AppView {
                status: "saved task '"@ + name + "' to "@ + a.path,
                mode: ModeView::Menu,
                ..b
            }
        } else {
            match a.mode {
                ModeView::Form(f) => AppView {
                    mode: ModeView::Form(FormView { error: Some(failed), ..f }),
                    ..b
                },
                _ => b,
            }
        },
    }
}

/// The editor as it opens.
pub open spec fn opened(path: Seq<char>, root: Seq<char>, doc: Entries) -> AppView {
    AppView {
        path,
        root,
        tasks: keys_in(doc),
        selected: 0,
        menu: 0,
        mode: ModeView::Menu,
        status: Seq::empty(),
        quit: false,
        pending: PendingView::Nothing,
    }
}

impl App {
    /// Open the editor on a file's text; on an empty document where there is no
    /// file yet.
    pub fn open(path: &str, root: &str, contents: Option<&str>) -> (r: Result<App, TsrError>)
        ensures
            match r {
                Ok(a) => {
                    &&& a@ == opened(path@, root@, toml::document_entries(a.doc))
                    &&& edit::is_settled(toml::content(a.doc))
                    &&& match contents {
                        Some(t) => toml::toml_entries(t@) == Ok::<Entries, Seq<char>>(
                            toml::document_entries(a.doc),
                        ) && toml::document_layout(a.doc) == toml::toml_layout(t@),
                        None => toml::document_entries(a.doc) == Seq::<
                            (Seq<char>, TomlView),
                        >::empty() && toml::document_layout(a.doc) == toml::no_layout(),
                    }
                },
                Err(e) => contents matches Some(t) && toml::toml_entries(t@) matches Err(m) && e@
                    == ErrorView::Config("invalid TOML in '"@ + path@ + "': "@ + m),
            },
    {
        let doc = match contents {
            None => toml::empty_document(),
            Some(t) => match toml::parse_document(t) {
                Ok(doc) => doc,
                Err(m) => {
                    let mut msg = text::join3("invalid TOML in '", path, "': ");
                    msg.append(m.as_str());
                    return Err(TsrError::config(msg.as_str()));
                },
            },
        };
        Ok(App::new(path, root, doc))
    }

    /// Open the editor on a document.
    pub fn new(path: &str, root: &str, doc: toml_edit::DocumentMut) -> (a: App)
        ensures
            a@ == opened(path@, root@, toml::document_entries(doc)),
            a.doc == doc,
    {
        let tasks = task_keys(&toml::entries(&doc));
        App {
            path: path.to_string(),
            root: root.to_string(),
            doc,
            tasks,
            selected: 0,
            menu: 0,
            mode: Mode::Menu,
            status: String::new(),
            quit: false,
            pending: Pending::Nothing,
        }
    }

    fn refresh_tasks(&mut self)
        ensures
            final(self)@ == refreshed(old(self)@, toml::document_entries(old(self).doc)),
            final(self).doc == old(self).doc,
    {
        self.tasks = task_keys(&toml::entries(&self.doc));
        assert(text::texts(self.tasks@).len() == self.tasks.len());
        if self.tasks.len() == 0 {
            self.selected = 0;
        } else if self.selected >= self.tasks.len() {
            self.selected = self.tasks.len() - 1;
        }
    }

    fn selected_task(&self) -> (r: Option<String>)
        ensures
            config::opt_text(r) == picked(self@),
    {
        assert(text::texts(self.tasks@).len() == self.tasks.len());
        if self.selected < self.tasks.len() {
            assert(text::texts(self.tasks@)[self.selected as int] == self.tasks@[self.selected as int]@);
            Some(self.tasks[self.selected].clone())
        } else {
            None
        }
    }

    fn open_picker(&mut self, purpose: ListPurpose)
        ensures
            final(self)@ == with_picker(old(self)@, purpose),
            final(self).doc == old(self).doc,
    {
        assert(text::texts(self.tasks@).len() == self.tasks.len());
        if self.tasks.len() == 0 {
            self.status = "no tasks yet — choose \"Add a task\" first".to_string();
            return ;
        }
        self.selected = 0;
        self.mode = Mode::List(purpose);
    }

    fn activate_menu(&mut self, item: MenuItem)
        ensures
            final(self)@ == activated(old(self)@, item),
            final(self).doc == old(self).doc,
    {
        self.status = String::new();
        match item {
            MenuItem::Add => {
                self.mode = Mode::Form(FormState::new_task());
            },
            MenuItem::Delegate => {
                self.mode = Mode::Form(FormState::new_delegate());
            },
            MenuItem::Edit => self.open_picker(ListPurpose::Edit),
            MenuItem::Delete => self.open_picker(ListPurpose::Delete),
            MenuItem::Graph => {
                self.mode = Mode::Graph { focus: None, scroll: 0 };
            },
            MenuItem::Quit => {
                self.quit = true;
            },
        }
    }

    fn on_key_menu(&mut self, key: Key)
        ensures
            final(self)@ == menu_key(old(self)@, key),
            final(self).doc == old(self).doc,
    {
        if key == Key::Char('q') || key == Key::Esc {
            self.quit = true;
        } else if key == Key::Down || key == Key::Char('j') {
            self.menu = step_down(self.menu, MENU_ITEMS);
        } else if key == Key::Up || key == Key::Char('k') {
            self.menu = step_up(self.menu, MENU_ITEMS);
        } else if key == Key::Enter || key == Key::Char(' ') {
            let item = MenuItem::at(self.menu);
            self.activate_menu(item);
        }
    }

    fn on_key_list(&mut self, purpose: ListPurpose, key: Key)
        requires
            old(self)@.mode == ModeView::List(purpose),
        ensures
            final(self)@ == list_key(
                old(self)@,
                toml::document_entries(old(self).doc),
                purpose,
                key,
            ),
            final(self).doc == old(self).doc,
    {
        assert(text::texts(self.tasks@).len() == self.tasks.len());
        if key == Key::Esc || key == Key::Char('q') {
            self.mode = Mode::Menu;
        } else if key == Key::Down || key == Key::Char('j') {
            if self.tasks.len() > 0 {
                self.selected = step_down(self.selected, self.tasks.len());
            }
        } else if key == Key::Up || key == Key::Char('k') {
            if self.tasks.len() > 0 {
                self.selected = step_up(self.selected, self.tasks.len());
            }
        } else if key == Key::Char('g') {
            let focus = self.selected_task();
            self.status = String::new();
            self.mode = Mode::Graph { focus, scroll: 0 };
        } else if key == Key::Enter {
            if let Some(k) = self.selected_task() {
                match purpose {
                    ListPurpose::Edit => {
                        let entries = toml::entries(&self.doc);
                        self.status = String::new();
                        self.mode = Mode::Form(FormState::from_doc(&entries, k.as_str()));
                    },
                    ListPurpose::Delete => {
                        self.mode = Mode::ConfirmDelete(k);
                    },
                }
            }
        }
    }

    fn on_key_graph(&mut self, focus: Option<String>, scroll: u16, key: Key)
        ensures
            final(self)@ == graph_key(old(self)@, config::opt_text(focus), scroll as int, key),
            final(self).doc == old(self).doc,
    {
        if key == Key::Esc || key == Key::Char('q') || key == Key::Char('g') {
            self.mode = Mode::Menu;
        } else if key == Key::Char('a') || key == Key::Char('G') {
            self.mode = Mode::Graph { focus: None, scroll: 0 };
        } else if key == Key::Down || key == Key::Char('j') {
            let next = if scroll < u16::MAX {
                scroll + 1
            } else {
                scroll
            };
            self.mode = Mode::Graph { focus, scroll: next };
        } else if key == Key::Up || key == Key::Char('k') {
            let next = if scroll > 0 {
                scroll - 1
            } else {
                scroll
            };
            self.mode = Mode::Graph { focus, scroll: next };
        } else {
            self.mode = Mode::Graph { focus, scroll };
        }
    }

    /// Delete a task; the text to write.
    fn delete(&mut self, key: String) -> (r: Option<String>)
        ensures
            is_deleted(
                old(self)@,
                old(self).doc,
                final(self)@,
                final(self).doc,
                key@,
                config::opt_text(r),
            ),
    {
        let entries = toml::entries(&self.doc);
        let mut written = None;
        if toml::get_table(&entries, "tasks").is_some() {
            edit::open_tasks(&mut self.doc);
            edit::delete_task(&mut self.doc, key.as_str());
            self.refresh_tasks();
            self.pending = Pending::Deleting(key);
            written = Some(toml::print(&self.doc));
        }
        assert(text::texts(self.tasks@).len() == self.tasks.len());
        if self.tasks.len() > 0 {
            self.mode = Mode::List(ListPurpose::Delete);
        } else {
            self.mode = Mode::Menu;
        }
        written
    }

    /// Save a form, if the whole config it leads to is valid; the text to write.
    fn commit_form(&mut self, form: FormState) -> (r: Option<String>)
        ensures
            is_committed(
                old(self)@,
                old(self).doc,
                final(self)@,
                final(self).doc,
                form@,
                config::opt_text(r),
            ),
    {
        let mut form = form;
        let mut candidate = toml::copy_document(&self.doc);
        let name = match apply_form(&mut candidate, &form) {
            Ok(name) => name,
            Err(m) => {
                form.error = Some(m);
                self.mode = Mode::Form(form);
                return None;
            },
        };
        let t = toml::print(&candidate);
        if let Some(m) = judge(t.as_str()) {
            assert(verdict(toml::document_text(candidate)) == Some(m@));
            form.error = Some(m);
            self.mode = Mode::Form(form);
            return None;
        }
        self.doc = candidate;
        self.refresh_tasks();
        self.mode = Mode::Form(form);
        self.pending = Pending::Saving(name);
        Some(t)
    }

    /// A key in a form that does not save it.
    fn on_key_form(&mut self, form: FormState, key: Key, ctrl: bool)
        requires
            !is_save(key, ctrl),
        ensures
            Some(final(self)@) == pressed(
                AppView { mode: ModeView::Form(form@), ..old(self)@ },
                toml::document_entries(old(self).doc),
                key,
                ctrl,
            ),
            final(self).doc == old(self).doc,
    {
        let mut form = form;
        match key {
            Key::Esc => {
                self.status = "edit cancelled".to_string();
                self.mode = Mode::Menu;
                return ;
            },
            Key::Up => form.focus_prev(),
            Key::Down => form.focus_next(),
            Key::Tab => form.focus_next(),
            Key::Left => form.adjust(false),
            Key::Right => form.adjust(true),
            Key::Backspace => form.backspace(),
            Key::Char(c) => {
                if c == ' ' && !form.focus_is_text() {
                    form.adjust(true);
                } else if !ctrl {
                    form.type_char(c);
                }
            },
            _ => {},
        }
        self.mode = Mode::Form(form);
    }

    /// What a key does; the text to write to the file, where there is a change.
    /// Whether it was written is to be said with [`App::written`].
    pub fn on_key(&mut self, key: Key, ctrl: bool) -> (r: Option<String>)
        ensures
            match pressed(old(self)@, toml::document_entries(old(self).doc), key, ctrl) {
                Some(next) => final(self)@ == next && final(self).doc == old(self).doc && r is None,
                None => match old(self)@.mode {
                    ModeView::Form(f) => is_committed(
                        old(self)@,
                        old(self).doc,
                        final(self)@,
                        final(self).doc,
                        f,
                        config::opt_text(r),
                    ),
                    ModeView::ConfirmDelete(k) => is_deleted(
                        old(self)@,
                        old(self).doc,
                        final(self)@,
                        final(self).doc,
                        k,
                        config::opt_text(r),
                    ),
                    _ => true,
                },
            },
    {
        let mut mode = Mode::Menu;
        std::mem::swap(&mut mode, &mut self.mode);
        match mode {
            Mode::Menu => {
                self.on_key_menu(key);
                None
            },
            Mode::List(purpose) => {
                self.mode = Mode::List(purpose);
                self.on_key_list(purpose, key);
                None
            },
            Mode::Graph { focus, scroll } => {
                self.on_key_graph(focus, scroll, key);
                None
            },
            Mode::ConfirmDelete(k) => {
                if key == Key::Char('y') {
                    self.delete(k)
                } else {
                    if key == Key::Char('n') || key == Key::Esc {
                        self.mode = Mode::List(ListPurpose::Delete);
                    }
                    None
                }
            },
            Mode::Form(form) => {
                if key == Key::Enter || (ctrl && key == Key::Char('s')) {
                    self.commit_form(form)
                } else {
                    self.on_key_form(form, key, ctrl);
                    None
                }
            },
        }
    }

    /// Say whether the change was written, or why not.
    pub fn written(&mut self, failure: Option<String>)
        ensures
            final(self)@ == settled(old(self)@, config::opt_text(failure)),
            final(self).doc == old(self).doc,
    {
        let mut pending = Pending::Nothing;
        std::mem::swap(&mut pending, &mut self.pending);
        match pending {
            Pending::Nothing => {},
            Pending::Deleting(key) => {
                self.status = match failure {
                    Some(e) => write_error(self.path.as_str(), e.as_str()),
                    None => text::join3("deleted '", key.as_str(), "'"),
                };
            },
            Pending::Saving(name) => {
                match failure {
                    None => {
                        let mut s = text::join3("saved task '", name.as_str(), "' to ");
                        s.append(self.path.as_str());
                        self.status = s;
                        self.mode = Mode::Menu;
                    },
                    Some(e) => {
                        let msg = write_error(self.path.as_str(), e.as_str());
                        let mut mode = Mode::Menu;
                        std::mem::swap(&mut mode, &mut self.mode);
                        match mode {
                            Mode::Form(form) => {
                                let mut form = form;
                                form.error = Some(msg);
                                self.mode = Mode::Form(form);
                            },
                            other => {
                                self.mode = other;
                            },
                        }
                    },
                }
            },
        }
    }
}

fn write_error(path: &str, why: &str) -> (r: String)
    ensures
        r@ == "write failed: "@ + path@ + " — "@ + why@,
{
    let mut s = text::join3("write failed: ", path, " — ");
    s.append(why);
    s
}

fn step_down(i: usize, n: usize) -> (r: usize)
    requires
        n > 0,
    ensures
        r == form::option_after(i as int, n as int),
{
    if i >= n - 1 {
        0
    } else {
        i + 1
    }
}

fn step_up(i: usize, n: usize) -> (r: usize)
    requires
        n > 0,
    ensures
        r == form::option_before(i as int, n as int),
{
    if i == 0 || i >= n {
        n - 1
    } else {
        i - 1
    }
}

// ---------------------------------------------------------------------------
// Laws
// ---------------------------------------------------------------------------
/// A form never breaks the config: what is written for one is a valid config, and
/// when nothing is written the document is the one that was there. A form is saved
/// when it is right and its task leaves the document with a valid config.
pub proof fn law_saved_configs_are_valid(
    before: AppView,
    doc: toml_edit::DocumentMut,
    after: AppView,
    new_doc: toml_edit::DocumentMut,
    f: FormView,
    t: Option<Seq<char>>,
)
    requires
        is_committed(before, doc, after, new_doc, f, t),
    ensures
        t matches Some(t) ==> config::valid_config(toml::toml_entries(t), "."@) is Ok,
        t matches Some(t) ==> t == toml::document_text(new_doc),
        t is None ==> new_doc == doc,
        t is None ==> (after.mode matches ModeView::Form(g) && g.error is Some),
        match form::task_of(f) {
            Err(_) => t is None,
            Ok((name, fields)) => (forall|d: toml_edit::DocumentMut|
                toml::content(d) == edit::applied(toml::content(doc), f.original, name, fields)
                    ==> config::valid_config(
                    toml::toml_entries(#[trigger] toml::document_text(d)),
                    "."@,
                ) is Ok) ==> t is Some,
        },
{
}

/// Quitting asks for nothing: `q` and Esc leave the menu at once.
pub proof fn law_quitting_needs_no_confirmation(a: AppView, doc: Entries, ctrl: bool)
    requires
        a.mode is Menu,
    ensures
        pressed(a, doc, Key::Char('q'), ctrl) == Some(AppView { quit: true, ..a }),
        pressed(a, doc, Key::Esc, ctrl) == Some(AppView { quit: true, ..a }),
{
}

/// Moving in the menu: down and up are each other's opposite, and round the ends it goes
/// on at the other. Nothing else changes.
pub proof fn law_the_menu_goes_round(a: AppView, doc: Entries, ctrl: bool)
    requires
        a.mode is Menu,
        0 <= a.menu < 6,
    ensures
        pressed(a, doc, Key::Down, ctrl) == Some(
            AppView {
                menu: if a.menu < 5 {
                    a.menu + 1
                } else {
                    0
                },
                ..a
            },
        ),
        pressed(a, doc, Key::Up, ctrl) == Some(
            AppView {
                menu: if a.menu > 0 {
                    a.menu - 1
                } else {
                    5
                },
                ..a
            },
        ),
        pressed(a, doc, Key::Char('j'), ctrl) == pressed(a, doc, Key::Down, ctrl),
        pressed(a, doc, Key::Char('k'), ctrl) == pressed(a, doc, Key::Up, ctrl),
        pressed(a, doc, Key::Char(' '), ctrl) == pressed(a, doc, Key::Enter, ctrl),
{
}

/// What the items of the menu open: an empty form, the tasks to pick one to edit, an
/// empty form for a backend, the tasks to pick one to delete, the preview of all tasks,
/// and the way out. With no task there is nothing to pick.
pub proof fn law_what_the_menu_opens(a: AppView, doc: Entries, ctrl: bool)
    requires
        a.mode is Menu,
        0 <= a.menu < 6,
    ensures
        ({
            let b = pressed(a, doc, Key::Enter, ctrl)->0;
            &&& pressed(a, doc, Key::Enter, ctrl) is Some
            &&& a.menu == 0 ==> b.mode == ModeView::Form(form::blank())
            &&& a.menu == 1 && a.tasks.len() > 0 ==> b.mode == ModeView::List(ListPurpose::Edit)
                && b.selected == 0
            &&& a.menu == 2 ==> (b.mode matches ModeView::Form(f) && f.kind == 1 && f == (FormView {
                kind: 1,
                ..form::blank()
            }))
            &&& a.menu == 3 && a.tasks.len() > 0 ==> b.mode == ModeView::List(ListPurpose::Delete)
                && b.selected == 0
            &&& a.menu == 4 ==> b.mode == (ModeView::Graph { focus: None, scroll: 0 })
            &&& b.quit <==> a.menu == 5 || a.quit
            &&& (a.menu == 1 || a.menu == 3) && a.tasks.len() == 0 ==> b.mode is Menu && b.status
                == "no tasks yet — choose \"Add a task\" first"@
            &&& b.tasks == a.tasks && b.path == a.path && b.menu == a.menu
        }),
{
}

/// Moving in the list of tasks goes round as in the menu, and what is picked is the task
/// that is marked.
pub proof fn law_the_list_goes_round(a: AppView, doc: Entries, purpose: ListPurpose, ctrl: bool)
    requires
        a.mode == ModeView::List(purpose),
        0 <= a.selected < a.tasks.len(),
    ensures
        ({
            let n = a.tasks.len() as int;
            &&& pressed(a, doc, Key::Down, ctrl) == Some(
                AppView {
                    selected: if a.selected < n - 1 {
                        a.selected + 1
                    } else {
                        0
                    },
                    ..a
                },
            )
            &&& pressed(a, doc, Key::Up, ctrl) == Some(
                AppView {
                    selected: if a.selected > 0 {
                        a.selected - 1
                    } else {
                        n - 1
                    },
                    ..a
                },
            )
            &&& pressed(a, doc, Key::Char('j'), ctrl) == pressed(a, doc, Key::Down, ctrl)
            &&& pressed(a, doc, Key::Char('k'), ctrl) == pressed(a, doc, Key::Up, ctrl)
            &&& pressed(a, doc, Key::Esc, ctrl) == Some(AppView { mode: ModeView::Menu, ..a })
            &&& pressed(a, doc, Key::Char('q'), ctrl) == Some(AppView { mode: ModeView::Menu, ..a })
            &&& pressed(a, doc, Key::Char('g'), ctrl) == Some(
                AppView {
                    status: Seq::empty(),
                    mode: ModeView::Graph { focus: Some(a.tasks[a.selected]), scroll: 0 },
                    ..a
                },
            )
            &&& purpose == ListPurpose::Delete ==> pressed(a, doc, Key::Enter, ctrl) == Some(
                AppView { mode: ModeView::ConfirmDelete(a.tasks[a.selected]), ..a },
            )
            &&& purpose == ListPurpose::Edit ==> pressed(a, doc, Key::Enter, ctrl) == Some(
                AppView {
                    status: Seq::empty(),
                    mode: ModeView::Form(form::form_of(doc, a.tasks[a.selected])),
                    ..a
                },
            )
        }),
{
}

/// A task is deleted only where `y` answers the question; `n` and Esc go back to the
/// list, and any other key to the menu.
pub proof fn law_deleting_is_asked(a: AppView, doc: Entries, name: Seq<char>, key: Key, ctrl: bool)
    requires
        a.mode == ModeView::ConfirmDelete(name),
    ensures
        pressed(a, doc, key, ctrl) is None <==> key == Key::Char('y'),
        key == Key::Char('n') || key == Key::Esc ==> pressed(a, doc, key, ctrl) == Some(
            AppView { mode: ModeView::List(ListPurpose::Delete), ..a },
        ),
        key != Key::Char('y') && key != Key::Char('n') && key != Key::Esc ==> pressed(
            a,
            doc,
            key,
            ctrl,
        ) == Some(AppView { mode: ModeView::Menu, ..a }),
{
}

/// The preview is scrolled a line at a time, not beyond its top, and left for the menu.
pub proof fn law_scrolling(a: AppView, doc: Entries, focus: Option<Seq<char>>, scroll: int, ctrl: bool)
    requires
        a.mode == (ModeView::Graph { focus, scroll }),
        0 <= scroll < u16::MAX,
    ensures
        pressed(a, doc, Key::Down, ctrl) == Some(
            AppView { mode: ModeView::Graph { focus, scroll: scroll + 1 }, ..a },
        ),
        scroll > 0 ==> pressed(a, doc, Key::Up, ctrl) == Some(
            AppView { mode: ModeView::Graph { focus, scroll: scroll - 1 }, ..a },
        ),
        scroll == 0 ==> pressed(a, doc, Key::Up, ctrl) == Some(a),
        pressed(a, doc, Key::Char('j'), ctrl) == pressed(a, doc, Key::Down, ctrl),
        pressed(a, doc, Key::Char('k'), ctrl) == pressed(a, doc, Key::Up, ctrl),
        pressed(a, doc, Key::Char('a'), ctrl) == Some(
            AppView { mode: ModeView::Graph { focus: None, scroll: 0 }, ..a },
        ),
        pressed(a, doc, Key::Esc, ctrl) == Some(AppView { mode: ModeView::Menu, ..a }),
        pressed(a, doc, Key::Char('q'), ctrl) == Some(AppView { mode: ModeView::Menu, ..a }),
        pressed(a, doc, Key::Char('g'), ctrl) == Some(AppView { mode: ModeView::Menu, ..a }),
{
}

/// What is typed goes behind the text of the field that is marked, and Backspace takes it
/// off again; no other field changes. A letter with Ctrl writes nothing, and a field that
/// is no text takes none.
pub proof fn law_typing(f: FormView, c: char, g: Field)
    requires
        f.focus != Field::Kind,
        f.focus != Field::Location,
        f.focus != Field::Parallel,
    ensures
        form::text_of(form_key(f, Key::Char(c), false), f.focus) == form::text_of(f, f.focus).push(
            c,
        ),
        g != f.focus ==> form::text_of(form_key(f, Key::Char(c), false), g) == form::text_of(f, g),
        form_key(f, Key::Char(c), false).focus == f.focus,
        form_key(form_key(f, Key::Char(c), false), Key::Backspace, false) == f,
        form::text_of(f, f.focus).len() == 0 ==> form_key(f, Key::Backspace, false) == f,
        form_key(f, Key::Char(c), true) == f,
{
    let s = form::text_of(f, f.focus);
    assert(s.push(c).drop_last() =~= s);
    let typed = form_key(f, Key::Char(c), false);
    assert(form_key(typed, Key::Backspace, false) == form::with_text(typed, f.focus, s));
}

/// The arrows go from field to field and through the choices of a field, Tab goes on as
/// Down does, and Space changes a field that is no text.
pub proof fn law_keys_of_a_form(f: FormView, ctrl: bool)
    ensures
        form_key(f, Key::Down, ctrl) == (FormView {
            focus: form::next_field(f, f.focus, 13),
            ..f
        }),
        form_key(f, Key::Up, ctrl) == (FormView { focus: form::prev_field(f, f.focus, 13), ..f }),
        form_key(f, Key::Tab, ctrl) == form_key(f, Key::Down, ctrl),
        form_key(f, Key::Right, ctrl) == form::adjusted(f, true),
        form_key(f, Key::Left, ctrl) == form::adjusted(f, false),
        f.focus == Field::Kind || f.focus == Field::Location || f.focus == Field::Parallel
            ==> form_key(f, Key::Char(' '), ctrl) == form::adjusted(f, true),
{
}

/// A form is saved by Enter or Ctrl-S, left without a change by Esc, and every other key
/// is for the form.
pub proof fn law_saving_and_leaving_a_form(a: AppView, doc: Entries, f: FormView, key: Key, ctrl: bool)
    requires
        a.mode == ModeView::Form(f),
    ensures
        pressed(a, doc, key, ctrl) is None <==> key == Key::Enter || (ctrl && key == Key::Char('s')),
        key == Key::Esc ==> pressed(a, doc, key, ctrl) == Some(
            AppView { status: "edit cancelled"@, mode: ModeView::Menu, ..a },
        ),
        key != Key::Enter && key != Key::Esc && !(ctrl && key == Key::Char('s')) ==> pressed(
            a,
            doc,
            key,
            ctrl,
        ) == Some(AppView { mode: ModeView::Form(form_key(f, key, ctrl)), ..a }),
{
}

/// The editor shows the tasks of the document in the order of their names, each of them
/// and no other; the mark stays on one of them.
pub proof fn law_tasks_are_shown(a: AppView, doc: Entries, tasks: Entries)
    requires
        toml::lookup(doc, "tasks"@) == Some(TomlView::Table(tasks)) || toml::lookup(doc, "tasks"@)
            == Some(TomlView::Inline(tasks)),
        0 <= a.selected,
    ensures
        keys_in(doc).to_multiset() == Seq::new(tasks.len(), |i: int| tasks[i].0).to_multiset(),
        forall|i: int, j: int|
            0 <= i < j < keys_in(doc).len() ==> text::le(
                #[trigger] keys_in(doc)[i],
                #[trigger] keys_in(doc)[j],
            ),
        refreshed(a, doc).tasks == keys_in(doc),
        tasks.len() > 0 ==> 0 <= refreshed(a, doc).selected < tasks.len(),
        a.selected < tasks.len() ==> refreshed(a, doc).selected == a.selected,
{
    let keys = Seq::new(tasks.len(), |i: int| tasks[i].0);
    assert(keys_of(tasks) =~= keys);
    text::lemma_in_order_len(keys);
    text::lemma_le_is_total_order();
    keys.lemma_sort_by_ensures(|a: Seq<char>, b: Seq<char>| text::le(a, b));
    let r = keys_in(doc);
    let leq = |a: Seq<char>, b: Seq<char>| text::le(a, b);
    assert(vstd::relations::sorted_by(r, leq));
    assert forall|i: int, j: int| 0 <= i < j < r.len() implies text::le(
        #[trigger] r[i],
        #[trigger] r[j],
    ) by {
        assert(leq(r[i], r[j]));
    }
}

/// What the editor says once a text was written, or could not be: a form that was saved is
/// left for the menu, one that was not stays open with the reason.
pub proof fn law_what_writing_came_to(a: AppView, name: Seq<char>, why: Seq<char>, f: FormView)
    ensures
        a.pending == PendingView::Saving(name) ==> settled(a, None) == (AppView {
            pending: PendingView::Nothing,
            status: "saved task '"@ + name + "' to "@ + a.path,
            mode: ModeView::Menu,
            ..a
        }),
        a.pending == PendingView::Saving(name) && a.mode == ModeView::Form(f) ==> settled(
            a,
            Some(why),
        ) == (AppView {
            pending: PendingView::Nothing,
            mode: ModeView::Form(
                FormView { error: Some("write failed: "@ + a.path + " — "@ + why), ..f },
            ),
            ..a
        }),
        a.pending == PendingView::Deleting(name) ==> settled(a, None) == (AppView {
            pending: PendingView::Nothing,
            status: "deleted '"@ + name + "'"@,
            ..a
        }),
        a.pending == PendingView::Deleting(name) ==> settled(a, Some(why)) == (AppView {
            pending: PendingView::Nothing,
            status: "write failed: "@ + a.path + " — "@ + why,
            ..a
        }),
{
}

/// The editor opens at the top of the menu, with the tasks of the document and nothing
/// said.
pub proof fn law_the_editor_opens(path: Seq<char>, root: Seq<char>, doc: Entries)
    ensures
        ({
            let a = opened(path, root, doc);
            &&& a.path == path && a.root == root
            &&& a.mode is Menu && a.menu == 0 && a.selected == 0
            &&& a.tasks == keys_in(doc)
            &&& a.status.len() == 0 && !a.quit && a.pending is Nothing
        }),
{
}

/// What the list says of a task: what it runs, its packages and dependencies where it has
/// any, and that it is parallel where it is; a task that says nothing is found by itself.
pub proof fn law_what_the_list_says(doc: Entries, key: Seq<char>, t: Entries, s: Seq<char>)
    requires
        form::task_table(doc, key) == Some(t),
    ensures
        toml::lookup(t, "run"@) == Some(TomlView::Str(s)) ==> parts_of(t).len() > 0 && parts_of(t)[0]
            == "run: "@ + s,
        toml::lookup(t, "run"@) is None && toml::lookup(t, "delegate"@) == Some(TomlView::Str(s))
            ==> parts_of(t).len() > 0 && parts_of(t)[0] == "delegate: "@ + s,
        toml::lookup(t, "parallel"@) == Some(TomlView::Bool(true)) <==> parts_of(t).len() > 0
            && parts_of(t).last() == "parallel"@ && toml::lookup(t, "parallel"@) == Some(
            TomlView::Bool(true),
        ),
        toml::lookup(t, "run"@) is None && toml::lookup(t, "delegate"@) is None && toml::lookup(
            t,
            "packages"@,
        ) is None && toml::lookup(t, "deps"@) is None && toml::lookup(t, "parallel"@) is None
            ==> description(doc, key) == "auto"@,
        parts_of(t).len() > 0 ==> description(doc, key) == text::joined(parts_of(t), "  ·  "@),
{
}

/// After a task was deleted the list stays open as long as there is one left.
pub proof fn law_after_deleting(a: AppView)
    ensures
        a.tasks.len() == 0 ==> after_delete(a) == (AppView { mode: ModeView::Menu, ..a }),
        a.tasks.len() > 0 ==> after_delete(a) == (AppView {
            mode: ModeView::List(ListPurpose::Delete),
            ..a
        }),
{
}

} // verus!
