//! What the editor shows: a title, a framed body and a line of help, as styled
//! text. Drawing it is the caller's part.

use vstd::prelude::*;

use crate::config;
use crate::config::{Config, ConfigView};
use crate::detect::Markers;
use crate::error;
use crate::error::{ErrorView, TsrError};
use crate::form;
use crate::form::{Field, FormState, FormView, FIELDS};
use crate::preview;
use crate::preview::{Line, LineView, Style};
use crate::text;
use crate::toml;
use crate::toml::{Entries, Toml};
use crate::tui;
use crate::tui::{App, AppView, ListPurpose, MenuItem, Mode, ModeView, MENU_ITEMS};

verus! {

/// How wide the first column of the menu and of the list of tasks is.
pub const COLUMN: usize = 18;

/// How wide the column of a form's labels is.
pub const LABELS: usize = 12;

/// What the preview is made of.
pub enum Preview {
    /// It is not shown.
    Nothing,
    /// The config, and the marker files of each task's directory.
    Ready { cfg: Config, marks: Vec<Markers> },
    /// The document is no config.
    Broken(TsrError),
}

/// What the preview is made of.
pub enum PreviewView {
    Nothing,
    Ready { cfg: ConfigView, marks: Seq<Markers> },
    Broken(ErrorView),
}

impl View for Preview {
    type V = PreviewView;

    open spec fn view(&self) -> PreviewView {
        match self {
            Preview::Nothing => PreviewView::Nothing,
            Preview::Ready { cfg, marks } => PreviewView::Ready { cfg: cfg@, marks: marks@ },
            Preview::Broken(e) => PreviewView::Broken(e@),
        }
    }
}

/// What is shown.
#[derive(Debug)]
pub struct Screen {
    pub title: Line,
    /// What stands in the frame of the body.
    pub heading: String,
    pub body: Vec<Line>,
    /// The line of the body that is picked.
    pub selected: Option<usize>,
    /// How many lines of the body are scrolled away.
    pub scroll: u16,
    pub footer: Line,
}

/// What is shown.
pub struct ScreenView {
    pub title: LineView,
    pub heading: Seq<char>,
    pub body: Seq<LineView>,
    pub selected: Option<int>,
    pub scroll: int,
    pub footer: LineView,
}

impl View for Screen {
    type V = ScreenView;

    open spec fn view(&self) -> ScreenView {
        ScreenView {
            title: self.title@,
            heading: self.heading@,
            body: preview::line_views(self.body@),
            selected: match self.selected {
                Some(i) => Some(i as int),
                None => None,
            },
            scroll: self.scroll as int,
            footer: self.footer@,
        }
    }
}

// ---------------------------------------------------------------------------
// Title and help
// ---------------------------------------------------------------------------
/// The title.
pub open spec fn title_line(path: Seq<char>) -> LineView {
    seq![
        (" tsr "@, Style::Badge),
        (" config  "@, Style::Plain),
        (path, Style::Dim),
        ("  · autosaves"@, Style::Dim),
    ]
}

/// The help for what is shown.
pub open spec fn help(mode: ModeView) -> Seq<char> {
    match mode {
        ModeView::Menu => "↑↓ move · Enter select · q quit"@,
        ModeView::List(ListPurpose::Edit) => "↑↓ move · Enter edit · g graph · Esc back"@,
        ModeView::List(ListPurpose::Delete) => "↑↓ move · Enter delete · g graph · Esc back"@,
        ModeView::Form(_) => {
            "↑↓/Tab field · ←→/Space change · type to edit · Enter save · Esc cancel"@
        },
        ModeView::Graph { .. } => "↑↓ scroll · a all tasks · Esc/g back to menu"@,
        ModeView::ConfirmDelete(_) => "delete task? — y delete · n/Esc cancel"@,
    }
}

/// The help, and what there is to say besides.
pub open spec fn footer_line(a: AppView) -> LineView {
    if a.status.len() == 0 {
        seq![(help(a.mode), Style::Dim)]
    } else {
        seq![(help(a.mode) + "    "@ + a.status, Style::Dim)]
    }
}

fn title(path: &str) -> (r: Line)
    ensures
        r@ == title_line(path@),
{
    let mut line = Line::empty();
    line.add(" tsr ", Style::Badge);
    line.add(" config  ", Style::Plain);
    line.add(path, Style::Dim);
    line.add("  · autosaves", Style::Dim);
    assert(line@ =~= title_line(path@));
    line
}

fn help_text(mode: &Mode) -> (r: &'static str)
    ensures
        r@ == help(mode@),
{
    match mode {
        Mode::Menu => "↑↓ move · Enter select · q quit",
        Mode::List(p) => match p {
            ListPurpose::Edit => "↑↓ move · Enter edit · g graph · Esc back",
            ListPurpose::Delete => "↑↓ move · Enter delete · g graph · Esc back",
        },
        Mode::Form(_) => {
            "↑↓/Tab field · ←→/Space change · type to edit · Enter save · Esc cancel"
        },
        Mode::Graph { .. } => "↑↓ scroll · a all tasks · Esc/g back to menu",
        Mode::ConfirmDelete(_) => "delete task? — y delete · n/Esc cancel",
    }
}

fn footer(app: &App) -> (r: Line)
    ensures
        r@ == footer_line(app@),
{
    let mut line = Line::empty();
    let help = help_text(&app.mode);
    if text::chars(app.status.as_str()).len() == 0 {
        line.add(help, Style::Dim);
    } else {
        line.add(text::join3(help, "    ", app.status.as_str()).as_str(), Style::Dim);
    }
    assert(line@ =~= footer_line(app@));
    line
}

// ---------------------------------------------------------------------------
// Menu, list and question
// ---------------------------------------------------------------------------
/// The line of an entry of the menu.
pub open spec fn menu_line(item: MenuItem) -> LineView {
    let (label, hint) = item.spec_label_hint();
    seq![(text::padded(label, COLUMN as nat), Style::AccentBold), (hint, Style::Dim)]
}

/// The menu.
pub open spec fn menu_lines() -> Seq<LineView> {
    Seq::new(MENU_ITEMS as nat, |i: int| menu_line(MenuItem::spec_at(i)))
}

/// The line of a task in the list.
pub open spec fn list_line(doc: Entries, key: Seq<char>) -> LineView {
    seq![
        (text::padded(key, COLUMN as nat), Style::Accent),
        (tui::description(doc, key), Style::Gray),
    ]
}

/// The list of tasks.
pub open spec fn list_lines(doc: Entries, tasks: Seq<Seq<char>>) -> Seq<LineView> {
    Seq::new(tasks.len(), |i: int| list_line(doc, tasks[i]))
}

/// What a task is picked for.
pub open spec fn list_heading(p: ListPurpose) -> Seq<char> {
    match p {
        ListPurpose::Edit => " select a task to edit "@,
        ListPurpose::Delete => " select a task to delete "@,
    }
}

/// The question whether to delete a task.
pub open spec fn question_lines(key: Seq<char>) -> Seq<LineView> {
    seq![
        Seq::empty(),
        seq![
            ("  Delete task "@, Style::Plain),
            ("'"@ + key + "'"@, Style::AccentBold),
            ("?"@, Style::Plain),
        ],
        Seq::empty(),
        seq![("  y  delete it"@, Style::Plain)],
        seq![("  n  keep it"@, Style::Plain)],
    ]
}

fn render_menu() -> (r: Vec<Line>)
    ensures
        preview::line_views(r@) == menu_lines(),
{
    let mut out: Vec<Line> = Vec::new();
    let mut i: usize = 0;
    while i < MENU_ITEMS
        invariant
            i <= MENU_ITEMS,
            out.len() == i,
            forall|j: int| 0 <= j < i ==> (#[trigger] out@[j])@ == menu_line(MenuItem::spec_at(j)),
        decreases MENU_ITEMS - i,
    {
        let item = MenuItem::at(i);
        let (label, hint) = item.label_hint();
        let mut line = Line::empty();
        line.add(text::pad(label, COLUMN).as_str(), Style::AccentBold);
        line.add(hint, Style::Dim);
        assert(line@ =~= menu_line(MenuItem::spec_at(i as int)));
        out.push(line);
        i += 1;
    }
    assert(preview::line_views(out@) =~= menu_lines());
    out
}

fn render_list(doc: &Vec<(String, Toml)>, tasks: &Vec<String>) -> (r: Vec<Line>)
    ensures
        preview::line_views(r@) == list_lines(toml::entry_views(doc@), text::texts(tasks@)),
{
    let ghost e = toml::entry_views(doc@);
    let ghost all = text::texts(tasks@);
    let mut out: Vec<Line> = Vec::new();
    let mut i: usize = 0;
    while i < tasks.len()
        invariant
            i <= tasks.len(),
            e == toml::entry_views(doc@),
            all == text::texts(tasks@),
            out.len() == i,
            forall|j: int| 0 <= j < i ==> (#[trigger] out@[j])@ == list_line(e, all[j]),
        decreases tasks.len() - i,
    {
        assert(all[i as int] == tasks@[i as int]@);
        let key = tasks[i].as_str();
        let mut line = Line::empty();
        line.add(text::pad(key, COLUMN).as_str(), Style::Accent);
        line.add(tui::describe(doc, key).as_str(), Style::Gray);
        assert(line@ =~= list_line(e, all[i as int]));
        out.push(line);
        i += 1;
    }
    assert(preview::line_views(out@) =~= list_lines(e, all));
    out
}

fn one(s: &str, style: Style) -> (r: Line)
    ensures
        r@ == seq![(s@, style)],
{
    let mut line = Line::empty();
    line.add(s, style);
    assert(line@ =~= seq![(s@, style)]);
    line
}

fn render_confirm_delete(key: &str) -> (r: Vec<Line>)
    ensures
        preview::line_views(r@) == question_lines(key@),
{
    let mut question = Line::empty();
    question.add("  Delete task ", Style::Plain);
    question.add(text::join3("'", key, "'").as_str(), Style::AccentBold);
    question.add("?", Style::Plain);
    assert(question@ =~= question_lines(key@)[1]);
    let mut out: Vec<Line> = Vec::new();
    out.push(Line::empty());
    out.push(question);
    out.push(Line::empty());
    out.push(one("  y  delete it", Style::Plain));
    out.push(one("  n  keep it", Style::Plain));
    assert(preview::line_views(out@) =~= question_lines(key@));
    out
}

// ---------------------------------------------------------------------------
// The form
// ---------------------------------------------------------------------------
/// What a form is for.
pub open spec fn form_heading(f: FormView) -> Seq<char> {
    match f.original {
        Some(k) => " edit task: "@ + k + " "@,
        None => " new task "@,
    }
}

/// The look of a field's label.
pub open spec fn label_style(f: FormView, field: Field) -> Style {
    if f.focus == field {
        Style::AccentBold
    } else if form::applies(f, field) {
        Style::Gray
    } else {
        Style::Dim
    }
}

/// The look of a field's value.
pub open spec fn value_style(f: FormView, field: Field) -> Style {
    if f.focus == field {
        Style::Strong
    } else if form::applies(f, field) {
        Style::Gray
    } else {
        Style::Dim
    }
}

/// A field's value as it is shown: a text with a cursor behind it when it is in
/// focus, and with a dash in its place when it is empty.
pub open spec fn value_text(f: FormView, field: Field) -> Seq<char> {
    if field == Field::Parallel {
        if f.parallel {
            "[x] true"@
        } else {
            "[ ] false"@
        }
    } else if !form::is_text(field) {
        "‹ "@ + form::option_of(field, form::choice_of(f, field)) + " ›"@
    } else if f.focus == field {
        form::text_of(f, field) + "█"@
    } else if form::text_of(f, field).len() == 0 {
        "—"@
    } else {
        form::text_of(f, field)
    }
}

/// The line of a field.
pub open spec fn field_line(f: FormView, field: Field) -> LineView {
    let line = seq![
        (text::right_aligned(form::label_of(field), LABELS as nat), label_style(f, field)),
        ("  "@, Style::Plain),
        (value_text(f, field), value_style(f, field)),
    ];
    match form::hint_of(field) {
        Some(hint) => line.push(("   "@ + hint, Style::Dim)),
        None => line,
    }
}

/// A form.
pub open spec fn form_lines(f: FormView) -> Seq<LineView> {
    let fields = Seq::new(FIELDS as nat, |i: int| field_line(f, form::field_at(i)));
    match f.error {
        Some(e) => fields + seq![Seq::empty(), seq![("  ✗ "@ + e, Style::Red)]],
        None => fields,
    }
}

fn render_field(form: &FormState, field: Field) -> (r: Line)
    ensures
        r@ == field_line(form@, field),
{
    let focused = form.focus == field;
    let active = form.is_active(field);
    let label_look = if focused {
        Style::AccentBold
    } else if active {
        Style::Gray
    } else {
        Style::Dim
    };
    let value_look = if focused {
        Style::Strong
    } else if active {
        Style::Gray
    } else {
        Style::Dim
    };
    let value = if field == Field::Parallel {
        if form.parallel {
            "[x] true".to_string()
        } else {
            "[ ] false".to_string()
        }
    } else if !field.holds_text() {
        text::join3("‹ ", field.option(form.choice(field)), " ›")
    } else if focused {
        text::join2(form.text(field), "█")
    } else if text::chars(form.text(field)).len() == 0 {
        "—".to_string()
    } else {
        form.text(field).to_string()
    };
    let mut line = Line::empty();
    line.add(text::align_right(field.label(), LABELS).as_str(), label_look);
    line.add("  ", Style::Plain);
    line.add(value.as_str(), value_look);
    assert(line@ =~= seq![
        (
            text::right_aligned(form::label_of(field), LABELS as nat),
            label_style(form@, field),
        ),
        ("  "@, Style::Plain),
        (value_text(form@, field), value_style(form@, field)),
    ]);
    if let Some(hint) = field.hint() {
        line.add(text::join2("   ", hint).as_str(), Style::Dim);
    }
    line
}

/// A form.
pub fn render_form(form: &FormState) -> (r: Vec<Line>)
    ensures
        preview::line_views(r@) == form_lines(form@),
{
    let ghost f = form@;
    let mut out: Vec<Line> = Vec::new();
    let mut i: usize = 0;
    while i < FIELDS
        invariant
            i <= FIELDS,
            f == form@,
            out.len() == i,
            forall|j: int| 0 <= j < i ==> (#[trigger] out@[j])@ == field_line(f, form::field_at(j)),
        decreases FIELDS - i,
    {
        out.push(render_field(form, Field::at(i)));
        i += 1;
    }
    let ghost fields = Seq::new(FIELDS as nat, |i: int| field_line(f, form::field_at(i)));
    assert(preview::line_views(out@) =~= fields);
    if let Some(e) = &form.error {
        out.push(Line::empty());
        out.push(one(text::join2("  ✗ ", e.as_str()).as_str(), Style::Red));
        assert(preview::line_views(out@) =~= fields + seq![
            Seq::empty(),
            seq![("  ✗ "@ + e@, Style::Red)],
        ]);
    }
    out
}

fn heading_of_form(form: &FormState) -> (r: String)
    ensures
        r@ == form_heading(form@),
{
    match &form.original {
        Some(k) => text::join3(" edit task: ", k.as_str(), " "),
        None => " new task ".to_string(),
    }
}

// ---------------------------------------------------------------------------
// The preview
// ---------------------------------------------------------------------------
/// What the preview is of.
pub open spec fn graph_heading(focus: Option<Seq<char>>) -> Seq<char> {
    match focus {
        Some(k) => " graph · "@ + k + " "@,
        None => " graph · all tasks "@,
    }
}

/// The preview.
pub open spec fn graph_body(p: PreviewView, focus: Option<Seq<char>>) -> Seq<LineView> {
    match p {
        PreviewView::Nothing => Seq::empty(),
        PreviewView::Ready { cfg, marks } => preview::graph_lines(cfg, marks, focus),
        PreviewView::Broken(e) => seq![
            Seq::empty(),
            seq![("  cannot preview — "@ + error::bare(e), Style::Red)],
        ],
    }
}

/// The preview.
pub fn render_graph(p: &Preview, focus: &Option<String>) -> (r: Vec<Line>)
    requires
        p matches Preview::Ready { cfg, marks } ==> marks.len() == cfg.tasks.len(),
    ensures
        preview::line_views(r@) == graph_body(p@, config::opt_text(*focus)),
{
    match p {
        Preview::Nothing => {
            let out: Vec<Line> = Vec::new();
            assert(preview::line_views(out@) =~= Seq::empty());
            out
        },
        Preview::Ready { cfg, marks } => {
            let focus = match focus {
                Some(k) => Some(k.as_str()),
                None => None,
            };
            preview::build_graph_lines(cfg, focus, marks)
        },
        Preview::Broken(e) => {
            let mut out: Vec<Line> = Vec::new();
            out.push(Line::empty());
            let m = e.bare_message();
            out.push(one(text::join2("  cannot preview — ", m.as_str()).as_str(), Style::Red));
            assert(preview::line_views(out@) =~= graph_body(p@, config::opt_text(*focus)));
            out
        },
    }
}

// ---------------------------------------------------------------------------
// All of it
// ---------------------------------------------------------------------------
/// What is shown, the preview being made of `p`.
pub open spec fn screen_of(a: AppView, doc: Entries, p: PreviewView) -> ScreenView {
    let base = ScreenView {
        title: title_line(a.path),
        heading: Seq::empty(),
        body: Seq::empty(),
        selected: None,
        scroll: 0,
        footer: footer_line(a),
    };
    match a.mode {
        ModeView::Menu => ScreenView {
            heading: " what do you want to do? "@,
            body: menu_lines(),
            selected: Some(a.menu),
            ..base
        },
        ModeView::List(purpose) => ScreenView {
            heading: list_heading(purpose),
            body: list_lines(doc, a.tasks),
            selected: Some(a.selected),
            ..base
        },
        ModeView::Form(f) => ScreenView { heading: form_heading(f), body: form_lines(f), ..base },
        ModeView::Graph { focus, scroll } => ScreenView {
            heading: graph_heading(focus),
            body: graph_body(p, focus),
            scroll,
            ..base
        },
        ModeView::ConfirmDelete(key) => ScreenView {
            heading: " delete "@,
            body: question_lines(key),
            ..base
        },
    }
}

impl App {
    /// The config that the document is, for the preview.
    pub fn preview_config(&self) -> (r: Result<Config, TsrError>)
        ensures
            ({
                let owed = config::parsed_config(
                    toml::toml_entries(toml::document_text(self.doc)),
                    self@.root,
                );
                match r {
                    Ok(cfg) => owed == Ok::<ConfigView, ErrorView>(cfg@),
                    Err(e) => owed == Err::<ConfigView, ErrorView>(e@),
                }
            }),
    {
        let t = toml::print(&self.doc);
        Config::parse_str(t.as_str(), self.root.as_str())
    }

    /// What is shown. `p` is what the preview is made of, where it is shown.
    pub fn render(&self, p: &Preview) -> (r: Screen)
        requires
            p matches Preview::Ready { cfg, marks } ==> marks.len() == cfg.tasks.len(),
        ensures
            r@ == screen_of(self@, toml::document_entries(self.doc), p@),
    {
        let title = title(self.path.as_str());
        let footer = footer(self);
        match &self.mode {
            Mode::Menu => Screen {
                title,
                heading: " what do you want to do? ".to_string(),
                body: render_menu(),
                selected: Some(self.menu),
                scroll: 0,
                footer,
            },
            Mode::List(purpose) => {
                let entries = toml::entries(&self.doc);
                let heading = match purpose {
                    ListPurpose::Edit => " select a task to edit ",
                    ListPurpose::Delete => " select a task to delete ",
                };
                Screen {
                    title,
                    heading: heading.to_string(),
                    body: render_list(&entries, &self.tasks),
                    selected: Some(self.selected),
                    scroll: 0,
                    footer,
                }
            },
            Mode::Form(form) => Screen {
                title,
                heading: heading_of_form(form),
                body: render_form(form),
                selected: None,
                scroll: 0,
                footer,
            },
            Mode::Graph { focus, scroll } => {
                let heading = match focus {
                    Some(k) => text::join3(" graph · ", k.as_str(), " "),
                    None => " graph · all tasks ".to_string(),
                };
                Screen {
                    title,
                    heading,
                    body: render_graph(p, focus),
                    selected: None,
                    scroll: *scroll,
                    footer,
                }
            },
            Mode::ConfirmDelete(key) => Screen {
                title,
                heading: " delete ".to_string(),
                body: render_confirm_delete(key.as_str()),
                selected: None,
                scroll: 0,
                footer,
            },
        }
    }
}

/// The list shows a line for each task: its name first, and its form.
pub proof fn law_listed_tasks(a: AppView, doc: Entries, p: PreviewView, purpose: ListPurpose, i: int)
    requires
        a.mode == ModeView::List(purpose),
        0 <= i < a.tasks.len(),
    ensures
        ({
            let s = screen_of(a, doc, p);
            &&& s.body.len() == a.tasks.len()
            &&& s.selected == Some(a.selected)
            &&& s.body[i].len() == 2
            &&& s.body[i][0].0.take(a.tasks[i].len() as int) == a.tasks[i]
            &&& s.body[i][1].0 == tui::description(doc, a.tasks[i])
            &&& purpose == ListPurpose::Edit ==> s.heading == " select a task to edit "@
            &&& purpose == ListPurpose::Delete ==> s.heading == " select a task to delete "@
        }),
{
    text::law_padding(a.tasks[i], COLUMN as nat);
}

/// A form shows each of its fields in their order, and what is wrong with it below.
pub proof fn law_shown_forms(a: AppView, doc: Entries, p: PreviewView, f: FormView, i: int)
    requires
        a.mode == ModeView::Form(f),
        0 <= i < 13,
    ensures
        ({
            let s = screen_of(a, doc, p);
            let field = form::field_at(i);
            &&& s.body.len() == if f.error is Some {
                15int
            } else {
                13int
            }
            &&& s.body[i] == field_line(f, field)
            &&& s.body[i][2].0 == value_text(f, field)
            &&& f.error matches Some(e) ==> s.body[14] == seq![("  ✗ "@ + e, Style::Red)]
            &&& f.original matches Some(k) ==> s.heading == " edit task: "@ + k + " "@
            &&& f.original is None ==> s.heading == " new task "@
        }),
{
}

/// What is shown of a field: the switch, the choice, or the text, with the cursor behind
/// it where the field is marked.
pub proof fn law_shown_values(f: FormView, field: Field)
    ensures
        field == Field::Parallel && f.parallel ==> value_text(f, field) == "[x] true"@,
        field == Field::Parallel && !f.parallel ==> value_text(f, field) == "[ ] false"@,
        field == Field::Kind ==> value_text(f, field) == "‹ "@ + form::option_of(field, f.kind)
            + " ›"@,
        field == Field::Location ==> value_text(f, field) == "‹ "@ + form::option_of(
            field,
            f.location,
        ) + " ›"@,
        form::is_text(field) && f.focus == field ==> value_text(f, field) == form::text_of(f, field)
            + "█"@,
        form::is_text(field) && f.focus != field && form::text_of(f, field).len() > 0
            ==> value_text(f, field) == form::text_of(f, field),
        form::is_text(field) && f.focus != field && form::text_of(f, field).len() == 0
            ==> value_text(f, field) == "—"@,
        form::option_of(Field::Kind, 0) == "run"@,
        form::option_of(Field::Kind, 1) == "delegate"@,
        form::option_of(Field::Kind, 2) == "delegate(table)"@,
        form::option_of(Field::Kind, 3) == "auto-detect"@,
        form::option_of(Field::Location, 0) == "root"@,
        form::option_of(Field::Location, 1) == "dir"@,
        form::option_of(Field::Location, 2) == "packages"@,
{
}

/// The question names the task that would go.
pub proof fn law_the_question_names_the_task(a: AppView, doc: Entries, p: PreviewView, key: Seq<char>)
    requires
        a.mode == ModeView::ConfirmDelete(key),
    ensures
        screen_of(a, doc, p).body[1][1].0 == "'"@ + key + "'"@,
        screen_of(a, doc, p).body.len() == 5,
{
}

/// The preview shows the tree of the config, or why there is none.
pub proof fn law_shown_previews(
    a: AppView,
    doc: Entries,
    cfg: ConfigView,
    marks: Seq<Markers>,
    e: ErrorView,
    focus: Option<Seq<char>>,
    scroll: int,
)
    requires
        a.mode == (ModeView::Graph { focus, scroll }),
    ensures
        screen_of(a, doc, PreviewView::Ready { cfg, marks }).body == preview::graph_lines(
            cfg,
            marks,
            focus,
        ),
        screen_of(a, doc, PreviewView::Ready { cfg, marks }).scroll == scroll,
        screen_of(a, doc, PreviewView::Broken(e)).body[1] == seq![
            ("  cannot preview — "@ + error::bare(e), Style::Red),
        ],
        focus matches Some(k) ==> screen_of(a, doc, PreviewView::Nothing).heading == " graph · "@ + k
            + " "@,
{
}

/// What the editor says is shown at the foot, behind the keys.
pub proof fn law_the_status_is_shown(a: AppView, doc: Entries, p: PreviewView)
    ensures
        a.status.len() > 0 ==> screen_of(a, doc, p).footer == seq![
            (help(a.mode) + "    "@ + a.status, Style::Dim),
        ],
        a.status.len() == 0 ==> screen_of(a, doc, p).footer == seq![(help(a.mode), Style::Dim)],
        screen_of(a, doc, p).title.contains((a.path, Style::Dim)),
{
    let t = title_line(a.path);
    assert(t[2] == (a.path, Style::Dim));
}

} // verus!
