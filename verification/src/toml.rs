//! TOML values, and the documents they are read from and written to.

use vstd::prelude::*;

use crate::text;

verus! {

/// A TOML value, as far as a reader of configuration tells values apart.
#[derive(Debug)]
pub enum Toml {
    Str(String),
    Bool(bool),
    Array(Vec<Toml>),
    /// A table under its own header, or made by dotted keys.
    Table(Vec<(String, Toml)>),
    /// A `{ ... }` table.
    Inline(Vec<(String, Toml)>),
    /// A number, a date, or an array of tables.
    Other,
}

/// What a [`Toml`] holds.
pub enum TomlView {
    Str(Seq<char>),
    Bool(bool),
    Array(Seq<TomlView>),
    Table(Seq<(Seq<char>, TomlView)>),
    Inline(Seq<(Seq<char>, TomlView)>),
    Other,
}

/// The entries of a table: keys and values, in order.
pub type Entries = Seq<(Seq<char>, TomlView)>;

impl View for Toml {
    type V = TomlView;

    open spec fn view(&self) -> TomlView {
        toml_view(*self)
    }
}

/// What a value holds.
pub open spec fn toml_view(t: Toml) -> TomlView
    decreases t,
{
    match t {
        Toml::Str(s) => TomlView::Str(s@),
        Toml::Bool(b) => TomlView::Bool(b),
        Toml::Array(v) => TomlView::Array(
            Seq::new(
                v@.len(),
                |i: int|
                    if 0 <= i < v@.len() {
                        toml_view(v@[i])
                    } else {
                        TomlView::Other
                    },
            ),
        ),
        Toml::Table(v) => TomlView::Table(
            Seq::new(
                v@.len(),
                |i: int|
                    if 0 <= i < v@.len() {
                        (v@[i].0@, toml_view(v@[i].1))
                    } else {
                        (Seq::empty(), TomlView::Other)
                    },
            ),
        ),
        Toml::Inline(v) => TomlView::Inline(
            Seq::new(
                v@.len(),
                |i: int|
                    if 0 <= i < v@.len() {
                        (v@[i].0@, toml_view(v@[i].1))
                    } else {
                        (Seq::empty(), TomlView::Other)
                    },
            ),
        ),
        Toml::Other => TomlView::Other,
    }
}

/// What a list of entries holds.
pub open spec fn entry_views(v: Seq<(String, Toml)>) -> Entries {
    Seq::new(v.len(), |i: int| (v[i].0@, v[i].1@))
}

/// What a list of values holds.
pub open spec fn value_views(v: Seq<Toml>) -> Seq<TomlView> {
    Seq::new(v.len(), |i: int| v[i]@)
}

pub proof fn lemma_view_parts(t: Toml)
    ensures
        t matches Toml::Table(v) ==> t@ == TomlView::Table(entry_views(v@)),
        t matches Toml::Inline(v) ==> t@ == TomlView::Inline(entry_views(v@)),
        t matches Toml::Array(v) ==> t@ == TomlView::Array(value_views(v@)),
{
    match t {
        Toml::Table(v) => {
            assert(t@->Table_0 =~= entry_views(v@));
        },
        Toml::Inline(v) => {
            assert(t@->Inline_0 =~= entry_views(v@));
        },
        Toml::Array(v) => {
            assert(t@->Array_0 =~= value_views(v@));
        },
        _ => {},
    }
}

/// The entries of a table of either kind.
pub open spec fn fields(t: TomlView) -> Option<Entries> {
    match t {
        TomlView::Table(e) => Some(e),
        TomlView::Inline(e) => Some(e),
        _ => None,
    }
}

/// The value under a key: the first entry with it.
pub open spec fn lookup(e: Entries, key: Seq<char>) -> Option<TomlView>
    decreases e.len(),
{
    if e.len() == 0 {
        None
    } else if e[0].0 == key {
        Some(e[0].1)
    } else {
        lookup(e.drop_first(), key)
    }
}

/// The value under a key of a table of either kind.
pub open spec fn field(t: TomlView, key: Seq<char>) -> Option<TomlView> {
    match fields(t) {
        Some(e) => lookup(e, key),
        None => None,
    }
}

/// The entries under a key, where a table of either kind stands there.
pub open spec fn table_at(e: Entries, key: Seq<char>) -> Option<Entries> {
    match lookup(e, key) {
        Some(t) => fields(t),
        None => None,
    }
}

/// The position of the first entry with a key; the number of entries if there is
/// none.
pub open spec fn key_at(e: Entries, key: Seq<char>) -> int
    decreases e.len(),
{
    if e.len() == 0 || e[0].0 == key {
        0
    } else {
        1 + key_at(e.drop_first(), key)
    }
}

/// The entries with a value under a key: in the place of the one that was there,
/// or behind the others.
pub open spec fn put(e: Entries, key: Seq<char>, v: TomlView) -> Entries {
    let i = key_at(e, key);
    if i < e.len() {
        e.update(i, (key, v))
    } else {
        e.push((key, v))
    }
}

/// The entries without those under a key.
pub open spec fn without(e: Entries, key: Seq<char>) -> Entries
    decreases e.len(),
{
    if e.len() == 0 {
        Seq::empty()
    } else if e.last().0 == key {
        without(e.drop_last(), key)
    } else {
        without(e.drop_last(), key).push(e.last())
    }
}

/// Whether no key occurs twice.
pub open spec fn distinct(e: Entries) -> bool {
    forall|i: int, j: int| 0 <= i < j < e.len() ==> (#[trigger] e[i]).0 != (#[trigger] e[j]).0
}

/// Whether a value is a string, a truth value or an array of strings.
pub open spec fn is_simple(v: TomlView) -> bool {
    match v {
        TomlView::Str(_) => true,
        TomlView::Bool(_) => true,
        TomlView::Array(items) => forall|i: int|
            0 <= i < items.len() ==> (#[trigger] items[i]) is Str,
        _ => false,
    }
}

/// Whether a value is simple, or a `{ ... }` table of simple ones.
pub open spec fn is_field(v: TomlView) -> bool {
    is_simple(v) || (v matches TomlView::Inline(e) && are_simple(e))
}

/// Whether the values are simple, each under a key of its own.
pub open spec fn are_simple(e: Entries) -> bool {
    distinct(e) && forall|i: int| 0 <= i < e.len() ==> is_simple((#[trigger] e[i]).1)
}

/// Whether the entries can be written as a table: fields, each under a key of its
/// own.
pub open spec fn are_fields(e: Entries) -> bool {
    distinct(e) && forall|i: int| 0 <= i < e.len() ==> is_field((#[trigger] e[i]).1)
}

/// The entries of `tasks`, where that is a table under its own header.
pub open spec fn tasks_table(e: Entries) -> Option<Entries> {
    match lookup(e, "tasks"@) {
        Some(TomlView::Table(tasks)) => Some(tasks),
        _ => None,
    }
}

pub proof fn lemma_key_at(e: Entries, key: Seq<char>)
    ensures
        0 <= key_at(e, key) <= e.len(),
        forall|i: int| 0 <= i < key_at(e, key) ==> (#[trigger] e[i]).0 != key,
        key_at(e, key) < e.len() ==> e[key_at(e, key)].0 == key && lookup(e, key) == Some(
            e[key_at(e, key)].1,
        ),
        key_at(e, key) == e.len() ==> lookup(e, key) is None,
    decreases e.len(),
{
    if e.len() > 0 && e[0].0 != key {
        lemma_key_at(e.drop_first(), key);
        assert forall|i: int| 0 <= i < key_at(e, key) implies (#[trigger] e[i]).0 != key by {
            if i > 0 {
                assert(e.drop_first()[i - 1] == e[i]);
            }
        }
    }
}

pub proof fn lemma_lookup_push(e: Entries, item: (Seq<char>, TomlView), key: Seq<char>)
    ensures
        lookup(e.push(item), key) == if lookup(e, key) is Some {
            lookup(e, key)
        } else if item.0 == key {
            Some(item.1)
        } else {
            None
        },
    decreases e.len(),
{
    let more = e.push(item);
    if e.len() == 0 {
        assert(more.drop_first() =~= Seq::empty());
    } else {
        assert(more.drop_first() =~= e.drop_first().push(item));
        if e[0].0 != key {
            lemma_lookup_push(e.drop_first(), item, key);
        }
    }
}

/// What stands under the other keys is not changed by taking one away.
pub proof fn lemma_lookup_without(e: Entries, gone: Seq<char>, key: Seq<char>)
    ensures
        lookup(without(e, gone), key) == if key == gone {
            None
        } else {
            lookup(e, key)
        },
    decreases e.len(),
{
    if e.len() > 0 {
        let rest = e.drop_last();
        lemma_lookup_without(rest, gone, key);
        assert(rest.push(e.last()) =~= e);
        lemma_lookup_push(rest, e.last(), key);
        if e.last().0 != gone {
            lemma_lookup_push(without(rest, gone), e.last(), key);
        }
    }
}

/// What stands under a key after something was put.
pub proof fn lemma_lookup_put(e: Entries, put_key: Seq<char>, v: TomlView, key: Seq<char>)
    ensures
        lookup(put(e, put_key, v), key) == if key == put_key {
            Some(v)
        } else {
            lookup(e, key)
        },
    decreases e.len(),
{
    lemma_key_at(e, put_key);
    let all = put(e, put_key, v);
    if key_at(e, put_key) == e.len() {
        lemma_lookup_push(e, (put_key, v), key);
    } else if e[0].0 == put_key {
        assert(all.drop_first() =~= e.drop_first());
    } else {
        lemma_lookup_put(e.drop_first(), put_key, v, key);
        assert(all.drop_first() =~= put(e.drop_first(), put_key, v));
    }
}

/// Putting a field keeps the entries fit to be written.
pub proof fn lemma_put(e: Entries, key: Seq<char>, v: TomlView)
    ensures
        distinct(e) ==> distinct(put(e, key, v)),
        are_simple(e) && is_simple(v) ==> are_simple(put(e, key, v)),
        are_fields(e) && is_field(v) ==> are_fields(put(e, key, v)),
{
    lemma_key_at(e, key);
    let at = key_at(e, key);
    let all = put(e, key, v);
    if distinct(e) {
        assert forall|i: int, j: int| 0 <= i < j < all.len() implies (#[trigger] all[i]).0 != (
        #[trigger] all[j]).0 by {
            if at < e.len() {
                assert(all[i].0 == e[i].0);
                assert(all[j].0 == e[j].0);
            } else if j < e.len() {
                assert(all[i] == e[i] && all[j] == e[j]);
            } else {
                assert(all[i] == e[i]);
            }
        }
    }
    assert forall|i: int| 0 <= i < all.len() implies (#[trigger] all[i]) == (key, v) || (i < e.len()
        && all[i] == e[i]) by {}
}

/// The text of a string value.
pub open spec fn str_of(t: TomlView) -> Option<Seq<char>> {
    match t {
        TomlView::Str(s) => Some(s),
        _ => None,
    }
}

/// The text of the string under a key.
pub open spec fn str_at(e: Entries, key: Seq<char>) -> Option<Seq<char>> {
    match lookup(e, key) {
        Some(t) => str_of(t),
        None => None,
    }
}

impl Toml {
    /// The text of a string value.
    pub fn as_str(&self) -> (r: Option<&String>)
        ensures
            match r {
                Some(s) => str_of(self@) == Some(s@),
                None => str_of(self@) is None,
            },
    {
        match self {
            Toml::Str(s) => Some(s),
            _ => None,
        }
    }

    /// The value of a boolean.
    pub fn as_bool(&self) -> (r: Option<bool>)
        ensures
            match r {
                Some(b) => self@ == TomlView::Bool(b),
                None => !(self@ is Bool),
            },
    {
        match self {
            Toml::Bool(b) => Some(*b),
            _ => None,
        }
    }

    /// The items of an array.
    pub fn as_array(&self) -> (r: Option<&Vec<Toml>>)
        ensures
            match r {
                Some(v) => self@ == TomlView::Array(value_views(v@)),
                None => !(self@ is Array),
            },
    {
        proof {
            lemma_view_parts(*self);
        }
        match self {
            Toml::Array(v) => Some(v),
            _ => None,
        }
    }

    /// The entries of a table of either kind.
    pub fn as_table_like(&self) -> (r: Option<&Vec<(String, Toml)>>)
        ensures
            match r {
                Some(v) => fields(self@) == Some(entry_views(v@)),
                None => fields(self@) is None,
            },
    {
        proof {
            lemma_view_parts(*self);
        }
        match self {
            Toml::Table(v) => Some(v),
            Toml::Inline(v) => Some(v),
            _ => None,
        }
    }

    /// The value under a key of a table of either kind.
    pub fn get(&self, key: &str) -> (r: Option<&Toml>)
        ensures
            match r {
                Some(t) => field(self@, key@) == Some(t@),
                None => field(self@, key@) is None,
            },
    {
        match self.as_table_like() {
            Some(e) => get(e, key),
            None => None,
        }
    }
}

/// The value under a key.
pub fn get<'a>(entries: &'a Vec<(String, Toml)>, key: &str) -> (r: Option<&'a Toml>)
    ensures
        match r {
            Some(t) => lookup(entry_views(entries@), key@) == Some(t@),
            None => lookup(entry_views(entries@), key@) is None,
        },
{
    let ghost e = entry_views(entries@);
    let mut i: usize = 0;
    assert(e.skip(0) =~= e);
    while i < entries.len()
        invariant
            i <= entries.len(),
            e == entry_views(entries@),
            lookup(e, key@) == lookup(e.skip(i as int), key@),
        decreases entries.len() - i,
    {
        assert(e.skip(i as int)[0] == e[i as int]);
        if text::same(entries[i].0.as_str(), key) {
            return Some(&entries[i].1);
        }
        assert(e.skip(i as int).drop_first() =~= e.skip(i + 1));
        i += 1;
    }
    None
}

/// Whether two values hold the same.
pub fn same(a: &Toml, b: &Toml) -> (r: bool)
    ensures
        r == (a@ == b@),
    decreases a,
{
    proof {
        lemma_view_parts(*a);
        lemma_view_parts(*b);
    }
    match (a, b) {
        (Toml::Str(x), Toml::Str(y)) => text::same(x.as_str(), y.as_str()),
        (Toml::Bool(x), Toml::Bool(y)) => *x == *y,
        (Toml::Array(x), Toml::Array(y)) => same_values(x, y),
        (Toml::Table(x), Toml::Table(y)) => same_entries(x, y),
        (Toml::Inline(x), Toml::Inline(y)) => same_entries(x, y),
        (Toml::Other, Toml::Other) => true,
        _ => false,
    }
}

fn same_values(x: &Vec<Toml>, y: &Vec<Toml>) -> (r: bool)
    ensures
        r == (value_views(x@) == value_views(y@)),
    decreases x,
{
    let ghost xv = value_views(x@);
    let ghost yv = value_views(y@);
    if x.len() != y.len() {
        assert(xv.len() != yv.len());
        return false;
    }
    let mut i: usize = 0;
    while i < x.len()
        invariant
            i <= x.len() == y.len(),
            xv == value_views(x@),
            yv == value_views(y@),
            forall|j: int| 0 <= j < i ==> #[trigger] xv[j] == yv[j],
        decreases x.len() - i,
    {
        if !same(&x[i], &y[i]) {
            assert(xv[i as int] != yv[i as int]);
            return false;
        }
        i += 1;
    }
    assert(xv =~= yv);
    true
}

fn same_entries(x: &Vec<(String, Toml)>, y: &Vec<(String, Toml)>) -> (r: bool)
    ensures
        r == (entry_views(x@) == entry_views(y@)),
    decreases x,
{
    let ghost xv = entry_views(x@);
    let ghost yv = entry_views(y@);
    if x.len() != y.len() {
        assert(xv.len() != yv.len());
        return false;
    }
    let mut i: usize = 0;
    while i < x.len()
        invariant
            i <= x.len() == y.len(),
            xv == entry_views(x@),
            yv == entry_views(y@),
            forall|j: int| 0 <= j < i ==> #[trigger] xv[j] == yv[j],
        decreases x.len() - i,
    {
        if !text::same(x[i].0.as_str(), y[i].0.as_str()) || !same(&x[i].1, &y[i].1) {
            assert(xv[i as int] != yv[i as int]);
            return false;
        }
        i += 1;
    }
    assert(xv =~= yv);
    true
}

/// The entries under a key, where a table of either kind stands there.
pub fn get_table<'a>(entries: &'a Vec<(String, Toml)>, key: &str) -> (r: Option<
    &'a Vec<(String, Toml)>,
>)
    ensures
        match r {
            Some(v) => table_at(entry_views(entries@), key@) == Some(entry_views(v@)),
            None => table_at(entry_views(entries@), key@) is None,
        },
{
    match get(entries, key) {
        Some(t) => t.as_table_like(),
        None => None,
    }
}

/// The text of the string under a key.
pub fn get_str<'a>(entries: &'a Vec<(String, Toml)>, key: &str) -> (r: Option<&'a String>)
    ensures
        match r {
            Some(s) => str_at(entry_views(entries@), key@) == Some(s@),
            None => str_at(entry_views(entries@), key@) is None,
        },
{
    match get(entries, key) {
        Some(t) => t.as_str(),
        None => None,
    }
}

/// Put a value under a key.
pub fn put_entry(entries: &mut Vec<(String, Toml)>, key: &str, v: Toml)
    ensures
        entry_views(final(entries)@) == put(entry_views(old(entries)@), key@, v@),
{
    let ghost e = entry_views(entries@);
    let ghost seen = v@;
    let mut i: usize = 0;
    assert(e.skip(0) =~= e);
    while i < entries.len() && !text::same(entries[i].0.as_str(), key)
        invariant
            i <= entries.len(),
            e == entry_views(entries@),
            key_at(e, key@) == i + key_at(e.skip(i as int), key@),
        decreases entries.len() - i,
    {
        assert(e.skip(i as int)[0] == e[i as int]);
        assert(e.skip(i as int).drop_first() =~= e.skip(i + 1));
        i += 1;
    }
    if i < entries.len() {
        assert(e.skip(i as int)[0] == e[i as int]);
        assert(key_at(e, key@) == i);
        entries.set(i, (key.to_string(), v));
        assert(entry_views(entries@) =~= e.update(i as int, (key@, seen)));
    } else {
        assert(key_at(e, key@) == i);
        entries.push((key.to_string(), v));
        assert(entry_views(entries@) =~= e.push((key@, seen)));
    }
}

// ---------------------------------------------------------------------------
// Documents
// ---------------------------------------------------------------------------
/// The document type of `toml_edit`: a TOML text that can be edited with its
/// comments and layout kept.
#[verifier::external_type_specification]
#[verifier::external_body]
pub struct ExDocumentMut(toml_edit::DocumentMut);

/// The item type of `toml_edit`: what stands under a key.
#[verifier::external_type_specification]
#[verifier::external_body]
pub struct ExItem(toml_edit::Item);

/// The value type of `toml_edit`.
#[verifier::external_type_specification]
#[verifier::external_body]
pub struct ExValue(toml_edit::Value);

/// The type of `toml_edit` for the text around a header, a key or a value.
#[verifier::external_type_specification]
#[verifier::external_body]
pub struct ExDecor(toml_edit::Decor);

/// The top-level entries of a document.
pub uninterp spec fn document_entries(doc: toml_edit::DocumentMut) -> Seq<(Seq<char>, TomlView)>;

/// What a document holds beside its entries: the comments, the blank lines and the
/// order that its text is printed in.
#[verifier::ext_equal]
pub struct Layout {
    /// The text behind the last entry.
    pub tail: Seq<char>,
    /// What is written of everything but `tasks` and the tail.
    pub outside: Seq<char>,
    /// The text in front of the header of `tasks`, or of its key where it is a
    /// `{ ... }` table, and the text behind it on its line.
    pub head: (Seq<char>, Seq<char>),
    /// For each task, where `tasks` is a table under its own header: the text in
    /// front of the task's header, or of its key where it has none.
    pub comments: Map<Seq<char>, Seq<char>>,
    /// For each task: the text behind its header on its line, or behind its value.
    pub behind: Map<Seq<char>, Seq<char>>,
    /// For each task that is a table under its own header: where it stands among
    /// the tables of the document.
    pub places: Map<Seq<char>, int>,
    /// The tasks whose header is printed whatever they hold: tables that neither
    /// dotted keys nor the headers of their own tables imply.
    pub headers: Set<Seq<char>>,
    /// For each entry of each task that is a table: the text in front of it, and
    /// the text behind it on its line. An entry that only dotted keys imply has
    /// none of its own, and what stands around the entries of an entry is not here.
    pub lines: Map<(Seq<char>, Seq<char>), (Seq<char>, Seq<char>)>,
}

/// What a document holds beside its entries.
pub uninterp spec fn document_layout(doc: toml_edit::DocumentMut) -> Layout;

/// What `toml_edit` finds in a text beside its entries.
pub uninterp spec fn toml_layout(text: Seq<char>) -> Layout;

/// What `toml_edit` makes of a text: its top-level entries, or the message that
/// says why it is no TOML.
pub uninterp spec fn toml_entries(text: Seq<char>) -> Result<
    Seq<(Seq<char>, TomlView)>,
    Seq<char>,
>;

// ---------------------------------------------------------------------------
// The text around the entries
// ---------------------------------------------------------------------------
/// The layout of a document without any text.
pub open spec fn no_layout() -> Layout {
    Layout {
        tail: Seq::empty(),
        outside: Seq::empty(),
        head: (Seq::empty(), Seq::empty()),
        comments: Map::empty(),
        behind: Map::empty(),
        places: Map::empty(),
        headers: Set::empty(),
        lines: Map::empty(),
    }
}

/// What a document holds.
#[verifier::ext_equal]
pub struct DocView {
    pub entries: Entries,
    pub layout: Layout,
}

/// What a document holds.
pub open spec fn content(doc: toml_edit::DocumentMut) -> DocView {
    DocView { entries: document_entries(doc), layout: document_layout(doc) }
}

/// The entries of a task of a document, where it is a table of either kind.
pub open spec fn task_fields(e: Entries, name: Seq<char>) -> Option<Entries> {
    match tasks_table(e) {
        Some(tasks) => table_at(tasks, name),
        None => None,
    }
}

/// Whether a task of a document is a table under its own header.
pub open spec fn is_headed(e: Entries, name: Seq<char>) -> bool {
    tasks_table(e) matches Some(tasks) && lookup(tasks, name) matches Some(TomlView::Table(_))
}

/// The lines without those of a task.
pub open spec fn lines_without(
    lines: Map<(Seq<char>, Seq<char>), (Seq<char>, Seq<char>)>,
    name: Seq<char>,
) -> Map<(Seq<char>, Seq<char>), (Seq<char>, Seq<char>)> {
    Map::new(
        |k: (Seq<char>, Seq<char>)| lines.contains_key(k) && k.0 != name,
        |k: (Seq<char>, Seq<char>)| lines[k],
    )
}

/// The lines with those of one task in the place of another's.
pub open spec fn lines_renamed(
    lines: Map<(Seq<char>, Seq<char>), (Seq<char>, Seq<char>)>,
    from: Seq<char>,
    to: Seq<char>,
) -> Map<(Seq<char>, Seq<char>), (Seq<char>, Seq<char>)> {
    Map::new(
        |k: (Seq<char>, Seq<char>)|
            k.0 != from && (if k.0 == to {
                lines.contains_key((from, k.1))
            } else {
                lines.contains_key(k)
            }),
        |k: (Seq<char>, Seq<char>)|
            if k.0 == to {
                lines[(from, k.1)]
            } else {
                lines[k]
            },
    )
}

/// A map with what is under one key moved to another.
pub open spec fn moved<V>(m: Map<Seq<char>, V>, from: Seq<char>, to: Seq<char>) -> Map<Seq<char>, V> {
    if m.contains_key(from) {
        m.remove(from).insert(to, m[from])
    } else {
        m.remove(to)
    }
}

/// A document with other tasks.
pub open spec fn with_tasks(d: DocView, tasks: Entries) -> DocView {
    DocView { entries: put(d.entries, "tasks"@, TomlView::Table(tasks)), ..d }
}

/// A document whose tasks are made a table: they stay, where they are a `{ ... }`
/// table.
pub open spec fn with_open_tasks(d: DocView) -> DocView {
    let (tasks, head) = match lookup(d.entries, "tasks"@) {
        Some(TomlView::Inline(e)) => (e, d.layout.head),
        _ => (Seq::empty(), (Seq::empty(), Seq::empty())),
    };
    DocView {
        entries: without(d.entries, "tasks"@).push(("tasks"@, TomlView::Table(tasks))),
        layout: Layout {
            head,
            comments: Map::empty(),
            places: Map::empty(),
            headers: Set::empty(),
            ..d.layout
        },
    }
}

/// A layout without a task.
pub open spec fn layout_without(l: Layout, name: Seq<char>) -> Layout {
    Layout {
        comments: l.comments.remove(name),
        behind: l.behind.remove(name),
        places: l.places.remove(name),
        headers: l.headers.remove(name),
        lines: lines_without(l.lines, name),
        ..l
    }
}

/// A document without a task.
pub open spec fn without_task(d: DocView, name: Seq<char>) -> DocView {
    DocView {
        layout: layout_without(d.layout, name),
        ..with_tasks(d, without(tasks_table(d.entries)->0, name))
    }
}

/// A document with a task that has no entries, behind the other tasks.
pub open spec fn with_task(d: DocView, name: Seq<char>) -> DocView {
    let others = layout_without(d.layout, name);
    DocView {
        layout: Layout {
            behind: others.behind.insert(name, Seq::empty()),
            headers: others.headers.insert(name),
            ..others
        },
        ..with_tasks(
            d,
            without(tasks_table(d.entries)->0, name).push((name, TomlView::Table(Seq::empty()))),
        )
    }
}

/// A document with a task under another name, behind the other tasks. Its comments
/// and its place are those it had.
pub open spec fn with_task_renamed(d: DocView, from: Seq<char>, to: Seq<char>) -> DocView {
    let tasks = tasks_table(d.entries)->0;
    DocView {
        layout: Layout {
            comments: moved(d.layout.comments, from, to),
            behind: moved(d.layout.behind, from, to),
            places: moved(d.layout.places, from, to),
            headers: if d.layout.headers.contains(from) {
                d.layout.headers.remove(from).insert(to)
            } else {
                d.layout.headers.remove(to)
            },
            lines: lines_renamed(d.layout.lines, from, to),
            ..d.layout
        },
        ..with_tasks(d, without(without(tasks, from), to).push((to, lookup(tasks, from)->0)))
    }
}

/// A table of either kind with other entries.
pub open spec fn with_entries(t: TomlView, e: Entries) -> TomlView {
    match t {
        TomlView::Inline(_) => TomlView::Inline(e),
        _ => TomlView::Table(e),
    }
}

/// A document with other entries of a task.
pub open spec fn with_task_fields(d: DocView, name: Seq<char>, e: Entries) -> DocView {
    let tasks = tasks_table(d.entries)->0;
    with_tasks(d, put(tasks, name, with_entries(lookup(tasks, name)->0, e)))
}

/// A document with a value under a key of a task. What is written around the entry
/// stays.
pub open spec fn with_field(d: DocView, name: Seq<char>, key: Seq<char>, v: TomlView) -> DocView {
    let around = if d.layout.lines.contains_key((name, key)) {
        d.layout.lines[(name, key)]
    } else {
        (Seq::empty(), Seq::empty())
    };
    DocView {
        layout: Layout { lines: d.layout.lines.insert((name, key), around), ..d.layout },
        ..with_task_fields(d, name, put(task_fields(d.entries, name)->0, key, v))
    }
}

/// A document without the entry under a key of a task.
pub open spec fn without_field(d: DocView, name: Seq<char>, key: Seq<char>) -> DocView {
    DocView {
        layout: Layout { lines: d.layout.lines.remove((name, key)), ..d.layout },
        ..with_task_fields(d, name, without(task_fields(d.entries, name)->0, key))
    }
}

/// A document with a text behind its last entry.
pub open spec fn with_tail(d: DocView, text: Seq<char>) -> DocView {
    DocView { layout: Layout { tail: text, ..d.layout }, ..d }
}

/// A document with a text in front of a task's header.
pub open spec fn with_comment(d: DocView, name: Seq<char>, text: Seq<char>) -> DocView {
    DocView {
        layout: Layout { comments: d.layout.comments.insert(name, text), ..d.layout },
        ..d
    }
}

/// A document with a task at a place.
pub open spec fn with_place(d: DocView, name: Seq<char>, at: int) -> DocView {
    DocView { layout: Layout { places: d.layout.places.insert(name, at), ..d.layout }, ..d }
}

/// `str::parse::<toml_edit::DocumentMut>` reads a TOML text. The contract names
/// its result, and says that a document it gives holds the entries and the layout
/// so named. A text without entries is all tail, but for a byte order mark. The
/// tasks that have a place are those whose header is in the text.
#[verifier::external_body]
pub(crate) fn parse_document(text: &str) -> (r: Result<toml_edit::DocumentMut, String>)
    ensures
        match r {
            Ok(doc) => {
                &&& toml_entries(text@) == Ok::<Seq<(Seq<char>, TomlView)>, Seq<char>>(
                    document_entries(doc),
                )
                &&& document_layout(doc) == toml_layout(text@)
                &&& document_entries(doc).len() == 0 && !text@.contains('\u{feff}')
                    ==> document_layout(doc).tail == text@
                &&& document_layout(doc).places.dom() == document_layout(doc).headers
            },
            Err(m) => toml_entries(text@) == Err::<Seq<(Seq<char>, TomlView)>, Seq<char>>(m@),
        },
{
    text.parse::<toml_edit::DocumentMut>().map_err(|e| e.to_string())
}

/// `toml_edit::DocumentMut::iter` hands out the top-level entries of a document,
/// in order; each is converted to a plain value.
#[verifier::external_body]
pub(crate) fn entries(doc: &toml_edit::DocumentMut) -> (r: Vec<(String, Toml)>)
    ensures
        entry_views(r@) == document_entries(*doc),
{
    doc.iter().map(|(k, v)| (k.to_string(), from_item(v))).collect()
}

/// The plain value of a `toml_edit` item: the conversion that [`entries`] applies
/// to what it hands out.
#[verifier::external_body]
fn from_item(item: &toml_edit::Item) -> Toml {
    match item {
        toml_edit::Item::Table(t) => Toml::Table(
            t.iter().map(|(k, v)| (k.to_string(), from_item(v))).collect(),
        ),
        toml_edit::Item::Value(v) => from_value(v),
        _ => Toml::Other,
    }
}

/// The plain value of a `toml_edit` value: [`from_item`] for what stands behind
/// a `=`.
#[verifier::external_body]
fn from_value(value: &toml_edit::Value) -> Toml {
    match value {
        toml_edit::Value::InlineTable(t) => Toml::Inline(
            t.iter().map(|(k, v)| (k.to_string(), from_value(v))).collect(),
        ),
        toml_edit::Value::Array(a) => Toml::Array(a.iter().map(from_value).collect()),
        toml_edit::Value::String(s) => Toml::Str(s.value().clone()),
        toml_edit::Value::Boolean(b) => Toml::Bool(*b.value()),
        _ => Toml::Other,
    }
}

/// `toml_edit::DocumentMut::new` makes a document without entries and without any
/// text.
#[verifier::external_body]
pub(crate) fn empty_document() -> (doc: toml_edit::DocumentMut)
    ensures
        document_entries(doc) == Seq::<(Seq<char>, TomlView)>::empty(),
        document_layout(doc) == no_layout(),
{
    toml_edit::DocumentMut::new()
}

/// The text that a document prints as.
pub uninterp spec fn document_text(doc: toml_edit::DocumentMut) -> Seq<char>;

/// A text as it is printed: without carriage returns.
pub open spec fn printed(s: Seq<char>) -> Seq<char> {
    s.filter(|c: char| c != '\r')
}

/// Whether a text is part of another one.
pub open spec fn occurs(part: Seq<char>, whole: Seq<char>) -> bool {
    exists|i: int|
        0 <= i <= whole.len() - part.len() && #[trigger] whole.subrange(i, i + part.len()) == part
}

/// Whether a text shows what a document holds beside its entries: it has the text
/// in front of each header that is printed, and it ends in the tail.
pub open spec fn shows(text: Seq<char>, l: Layout) -> bool {
    &&& printed(l.tail).is_suffix_of(text)
    &&& forall|name: Seq<char>| #[trigger]
        l.headers.contains(name) && l.comments.contains_key(name) ==> occurs(
            printed(l.comments[name]),
            text,
        )
}

/// `toml_edit::DocumentMut::to_string` prints a document, with the comments and
/// the layout it was read with. The contract names the text, and says that the
/// comments of the tasks are in it and that it ends in the tail. It does not say
/// that reading the text gives the entries back: an empty table whose header is not
/// printed leaves no trace in it.
#[verifier::external_body]
pub(crate) fn print(doc: &toml_edit::DocumentMut) -> (r: String)
    ensures
        r@ == document_text(*doc),
        shows(r@, document_layout(*doc)),
{
    doc.to_string()
}

/// `toml_edit::DocumentMut::clone` makes a document with the same entries and the
/// same layout, which prints as the same text.
#[verifier::external_body]
pub(crate) fn copy_document(doc: &toml_edit::DocumentMut) -> (r: toml_edit::DocumentMut)
    ensures
        document_entries(r) == document_entries(*doc),
        document_layout(r) == document_layout(*doc),
        document_text(r) == document_text(*doc),
{
    doc.clone()
}

/// `toml_edit::Table::remove_entry` and `toml_edit::Table::insert` take the entry
/// under a key out of a table and put another there, behind the others. Here a
/// table takes the place of what stands under `tasks`: one with the same entries
/// where that is a `{ ... }` table, else an empty one whose header is not printed.
/// The text in front of the key goes in front of the header, and the text behind
/// the value behind it.
#[verifier::external_body]
pub(crate) fn open_tasks(doc: &mut toml_edit::DocumentMut)
    requires
        tasks_table(document_entries(*old(doc))) is None,
    ensures
        content(*final(doc)) == with_open_tasks(content(*old(doc))),
{
    let mut table = toml_edit::Table::new();
    if let Some((key, toml_edit::Item::Value(toml_edit::Value::InlineTable(t)))) = doc.remove_entry(
        "tasks",
    ) {
        let (above, behind) = (key.leaf_decor().prefix().cloned(), t.decor().suffix().cloned());
        table = t.into_iter().collect();
        *table.decor_mut() = toml_edit::Decor::new(
            above.unwrap_or_default(),
            behind.unwrap_or_default(),
        );
    }
    table.set_implicit(true);
    doc.insert("tasks", toml_edit::Item::Table(table));
}

/// `toml_edit::Table::insert` puts an item under a key of a table; here an empty
/// table under a key of `tasks`. What stood there is taken out before
/// (`toml_edit::Table::remove`), so that the task comes behind the others. The new
/// table has no comment and no place of its own.
#[verifier::external_body]
pub(crate) fn insert_task(doc: &mut toml_edit::DocumentMut, name: &str)
    requires
        tasks_table(document_entries(*old(doc))) is Some,
    ensures
        content(*final(doc)) == with_task(content(*old(doc)), name@),
{
    let tasks = doc["tasks"].as_table_mut().unwrap();
    tasks.remove(name);
    tasks.insert(name, toml_edit::Item::Table(toml_edit::Table::new()));
}

/// `toml_edit::Table::remove` takes the entry under a key out of a table; here out
/// of `tasks`. Every other entry, of the document and of `tasks`, stays, in order,
/// with its comments and its place.
#[verifier::external_body]
pub(crate) fn remove_task(doc: &mut toml_edit::DocumentMut, name: &str)
    requires
        tasks_table(document_entries(*old(doc))) is Some,
    ensures
        content(*final(doc)) == without_task(content(*old(doc)), name@),
{
    doc["tasks"].as_table_mut().unwrap().remove(name);
}

/// `toml_edit::Table::remove_entry` takes the entry under one key of `tasks` out,
/// and `toml_edit::Table::insert_formatted` puts it under another, behind the
/// others, with the text around it. What stood there is taken out before.
#[verifier::external_body]
pub(crate) fn rename_task(doc: &mut toml_edit::DocumentMut, from: &str, to: &str)
    requires
        tasks_table(document_entries(*old(doc))) matches Some(tasks) && lookup(tasks, from@) is Some,
        from@ != to@,
    ensures
        content(*final(doc)) == with_task_renamed(content(*old(doc)), from@, to@),
{
    let tasks = doc["tasks"].as_table_mut().unwrap();
    let (key, item) = tasks.remove_entry(from).unwrap();
    tasks.remove(to);
    let key = toml_edit::Key::new(to).with_leaf_decor(key.leaf_decor().clone());
    tasks.insert_formatted(&key, item);
}

/// Assigning to the item that `toml_edit::TableLike::get_key_value_mut` hands out
/// replaces what stands under a key; here a value under a key of a task. The text
/// in front of the entry and the text behind it are handed on to the value.
#[verifier::external_body]
pub(crate) fn set_field(doc: &mut toml_edit::DocumentMut, name: &str, key: &str, v: &Toml)
    requires
        task_fields(document_entries(*old(doc)), name@) matches Some(e) && lookup(e, key@) is Some,
        is_field(v@),
    ensures
        content(*final(doc)) == with_field(content(*old(doc)), name@, key@, v@),
{
    let mut value = to_value(v);
    let task = doc["tasks"][name].as_table_like_mut().unwrap();
    let (mut key, item) = task.get_key_value_mut(key).unwrap();
    match item {
        toml_edit::Item::Value(old) => *value.decor_mut() = old.decor().clone(),
        toml_edit::Item::Table(old) => hand_on(old.decor(), key.leaf_decor_mut(), value.decor_mut()),
        _ => (),
    }
    *item = toml_edit::Item::Value(value);
}

/// Hands the text around a table's header on to a key and its value: the part of
/// [`set_field`] that is for a table under its own header.
#[verifier::external_body]
fn hand_on(header: &toml_edit::Decor, key: &mut toml_edit::Decor, value: &mut toml_edit::Decor) {
    key.clear();
    if let Some(above) = header.prefix() {
        key.set_prefix(above.clone());
    }
    if let Some(behind) = header.suffix() {
        value.set_suffix(behind.clone());
    }
}

/// `toml_edit::TableLike::insert` puts an item under a key of a table of either
/// kind; here a value under a key that a task does not have. It comes behind the
/// others, without any text around it.
#[verifier::external_body]
pub(crate) fn add_field(doc: &mut toml_edit::DocumentMut, name: &str, key: &str, v: &Toml)
    requires
        task_fields(document_entries(*old(doc)), name@) matches Some(e) && lookup(e, key@) is None,
        is_field(v@),
    ensures
        content(*final(doc)) == with_field(content(*old(doc)), name@, key@, v@),
{
    let task = doc["tasks"][name].as_table_like_mut().unwrap();
    task.remove(key);
    task.insert(key, toml_edit::Item::Value(to_value(v)));
}

/// `toml_edit::TableLike::remove` takes the entry under a key out of a table of
/// either kind; here out of a task.
#[verifier::external_body]
pub(crate) fn remove_field(doc: &mut toml_edit::DocumentMut, name: &str, key: &str)
    requires
        task_fields(document_entries(*old(doc)), name@) is Some,
    ensures
        content(*final(doc)) == without_field(content(*old(doc)), name@, key@),
{
    doc["tasks"][name].as_table_like_mut().unwrap().remove(key);
}

/// `toml_edit::DocumentMut::trailing` is the text behind the last entry.
#[verifier::external_body]
pub(crate) fn tail(doc: &toml_edit::DocumentMut) -> (r: String)
    ensures
        r@ == document_layout(*doc).tail,
{
    doc.trailing().as_str().unwrap_or_default().to_string()
}

/// `toml_edit::DocumentMut::set_trailing` sets the text behind the last entry.
#[verifier::external_body]
pub(crate) fn set_tail(doc: &mut toml_edit::DocumentMut, text: &str)
    ensures
        content(*final(doc)) == with_tail(content(*old(doc)), text@),
{
    doc.set_trailing(text);
}

/// `toml_edit::Decor::prefix` is the text in front of a header or a key; here that
/// of a task, where it has one.
#[verifier::external_body]
pub(crate) fn comment(doc: &toml_edit::DocumentMut, name: &str) -> (r: Option<String>)
    requires
        tasks_table(document_entries(*doc)) is Some,
    ensures
        match r {
            Some(s) => document_layout(*doc).comments.contains_key(name@) && s@
                == document_layout(*doc).comments[name@],
            None => !document_layout(*doc).comments.contains_key(name@),
        },
{
    let (key, item) = doc["tasks"].as_table()?.get_key_value(name)?;
    let decor = match item {
        toml_edit::Item::Table(t) => t.decor(),
        _ => key.leaf_decor(),
    };
    Some(decor.prefix()?.as_str()?.to_string())
}

/// `toml_edit::Decor::set_prefix` sets the text in front of a header; here that of
/// a task.
#[verifier::external_body]
pub(crate) fn set_comment(doc: &mut toml_edit::DocumentMut, name: &str, text: &str)
    requires
        is_headed(document_entries(*old(doc)), name@),
    ensures
        content(*final(doc)) == with_comment(content(*old(doc)), name@, text@),
{
    doc["tasks"][name].as_table_mut().unwrap().decor_mut().set_prefix(text);
}

/// `toml_edit::Table::position` is where a table stands among the tables of its
/// document; here a task, where it has a place. Only a table has one.
#[verifier::external_body]
pub(crate) fn place(doc: &toml_edit::DocumentMut, name: &str) -> (r: Option<usize>)
    requires
        tasks_table(document_entries(*doc)) is Some,
    ensures
        match r {
            Some(p) => document_layout(*doc).places.contains_key(name@) && p
                == document_layout(*doc).places[name@] && is_headed(document_entries(*doc), name@),
            None => !document_layout(*doc).places.contains_key(name@),
        },
{
    doc["tasks"].get(name)?.as_table()?.position()
}

/// `toml_edit::Table::set_position` sets where a table stands among the tables of
/// its document; here a task.
#[verifier::external_body]
pub(crate) fn set_place(doc: &mut toml_edit::DocumentMut, name: &str, at: usize)
    requires
        is_headed(document_entries(*old(doc)), name@),
    ensures
        content(*final(doc)) == with_place(content(*old(doc)), name@, at as int),
{
    doc["tasks"][name].as_table_mut().unwrap().set_position(at);
}

/// The `toml_edit` value of a plain one: the conversion that [`set_field`] and
/// [`add_field`] apply to the value they are given.
#[verifier::external_body]
fn to_value(v: &Toml) -> toml_edit::Value {
    match v {
        Toml::Str(s) => toml_edit::Value::from(s.as_str()),
        Toml::Bool(b) => toml_edit::Value::from(*b),
        Toml::Array(items) => items.iter().map(to_value).collect(),
        Toml::Table(e) => e.iter().map(|(k, v)| (k.as_str(), to_value(v))).collect(),
        Toml::Inline(e) => e.iter().map(|(k, v)| (k.as_str(), to_value(v))).collect(),
        Toml::Other => toml_edit::Value::from(""),
    }
}

/// The top-level entries of a TOML text, or the reason why it is none.
pub fn read(text: &str) -> (r: Result<Vec<(String, Toml)>, String>)
    ensures
        match r {
            Ok(e) => toml_entries(text@) == Ok::<Seq<(Seq<char>, TomlView)>, Seq<char>>(
                entry_views(e@),
            ),
            Err(m) => toml_entries(text@) == Err::<Seq<(Seq<char>, TomlView)>, Seq<char>>(m@),
        },
{
    match parse_document(text) {
        Ok(doc) => Ok(entries(&doc)),
        Err(m) => Err(m),
    }
}

/// A key names the first entry that has it, and no value where no entry has it.
pub proof fn law_entries_are_found(e: Entries, i: int, key: Seq<char>)
    ensures
        0 <= i < e.len() && (forall|j: int| 0 <= j < i ==> (#[trigger] e[j]).0 != e[i].0) ==> lookup(
            e,
            e[i].0,
        ) == Some(e[i].1),
        (forall|j: int| 0 <= j < e.len() ==> (#[trigger] e[j]).0 != key) ==> lookup(e, key) is None,
    decreases e.len(),
{
    if e.len() > 0 {
        let rest = e.drop_first();
        law_entries_are_found(rest, i - 1, key);
        if 0 < i < e.len() && (forall|j: int| 0 <= j < i ==> (#[trigger] e[j]).0 != e[i].0) {
            assert(e[0].0 != e[i].0);
            assert(rest[i - 1] == e[i]);
            assert forall|j: int| 0 <= j < i - 1 implies (#[trigger] rest[j]).0 != rest[i - 1].0 by {
                assert(rest[j] == e[j + 1]);
            }
        }
        if forall|j: int| 0 <= j < e.len() ==> (#[trigger] e[j]).0 != key {
            assert(e[0].0 != key);
            assert forall|j: int| 0 <= j < rest.len() implies (#[trigger] rest[j]).0 != key by {
                assert(rest[j] == e[j + 1]);
            }
        }
    }
}

/// A table written under a header and one written in braces are read alike, and
/// nothing else is a table.
pub proof fn law_tables(v: TomlView, e: Entries, key: Seq<char>)
    ensures
        fields(v) == Some(e) <==> v == TomlView::Table(e) || v == TomlView::Inline(e),
        field(TomlView::Table(e), key) == lookup(e, key),
        field(TomlView::Inline(e), key) == lookup(e, key),
        lookup(e, key) == Some(TomlView::Table(e)) || lookup(e, key) == Some(TomlView::Inline(e))
            ==> table_at(e, key) == Some(e),
        (lookup(e, key) is None || lookup(e, key)->0 is Str || lookup(e, key)->0 is Bool || lookup(
            e,
            key,
        )->0 is Array || lookup(e, key)->0 is Other) ==> table_at(e, key) is None,
        forall|s: Seq<char>| #[trigger]
            str_at(e, key) == Some(s) <==> lookup(e, key) == Some(TomlView::Str(s)),
{
}

/// A value that is put takes the place of the one that its key had, or comes last;
/// nothing else moves.
pub proof fn law_putting(e: Entries, i: int, key: Seq<char>, v: TomlView)
    ensures
        0 <= i < e.len() && e[i].0 == key && (forall|j: int|
            0 <= j < i ==> (#[trigger] e[j]).0 != key) ==> put(e, key, v) == e.update(i, (key, v)),
        (forall|j: int| 0 <= j < e.len() ==> (#[trigger] e[j]).0 != key) ==> put(e, key, v)
            == e.push((key, v)),
{
    lemma_key_at(e, key);
    let k = key_at(e, key);
    if 0 <= i < e.len() && e[i].0 == key && (forall|j: int|
        0 <= j < i ==> (#[trigger] e[j]).0 != key) {
        if k < i {
            assert(e[k].0 != key);
        }
        assert(k == i);
    }
}

/// Removing a key leaves the other entries, in their order.
pub proof fn law_removing(e: Entries, key: Seq<char>)
    ensures
        without(e, key) == e.filter(|x: (Seq<char>, TomlView)| x.0 != key),
    decreases e.len(),
{
    reveal(Seq::filter);
    if e.len() > 0 {
        law_removing(e.drop_last(), key);
    }
}

} // verus!
