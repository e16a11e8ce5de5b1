//! Text as sequences of characters.
//!
//! A string is modelled by its `Seq<char>`; parsing works on a `Vec<char>`, so
//! positions are character offsets.

use vstd::prelude::*;

verus! {

/// `String::push` appends one character to the end of the string.
pub assume_specification[ String::push ](s: &mut String, c: char)
    ensures
        final(s)@ == old(s)@.push(c),
;

/// The texts that a sequence of strings holds.
pub open spec fn texts(v: Seq<String>) -> Seq<Seq<char>> {
    Seq::new(v.len(), |i: int| v[i]@)
}

/// The characters of a string, in order.
pub fn chars(s: &str) -> (r: Vec<char>)
    ensures
        r@ == s@,
{
    let mut out: Vec<char> = Vec::new();
    for c in it: s.chars()
        invariant
            it.seq() == s@,
            out@ == s@.take(it.index() as int),
    {
        out.push(c);
    }
    out
}

/// The string holding `cs[from..to]`.
pub fn slice(cs: &Vec<char>, from: usize, to: usize) -> (r: String)
    requires
        from <= to <= cs.len(),
    ensures
        r@ == cs@.subrange(from as int, to as int),
{
    let mut out = String::new();
    let mut i: usize = from;
    while i < to
        invariant
            from <= i <= to <= cs.len(),
            out@ == cs@.subrange(from as int, i as int),
        decreases to - i,
    {
        out.push(cs[i]);
        i += 1;
    }
    out
}

/// The string made of one character.
pub fn unit(c: char) -> (r: String)
    ensures
        r@ == seq![c],
{
    let mut out = String::new();
    out.push(c);
    out
}

/// The string made of `n` copies of `c`.
pub fn repeat(c: char, n: usize) -> (r: String)
    ensures
        r@ == Seq::new(n as nat, |i: int| c),
{
    let mut out = String::new();
    let mut i: usize = 0;
    while i < n
        invariant
            i <= n,
            out@ == Seq::new(i as nat, |j: int| c),
        decreases n - i,
    {
        out.push(c);
        i += 1;
    }
    out
}

/// `a` followed by `b`.
pub fn join2(a: &str, b: &str) -> (r: String)
    ensures
        r@ == a@ + b@,
{
    let mut out = a.to_string();
    out.append(b);
    out
}

/// `a`, `b` and `c`, one after the other.
pub fn join3(a: &str, b: &str, c: &str) -> (r: String)
    ensures
        r@ == a@ + b@ + c@,
{
    let mut out = a.to_string();
    out.append(b);
    out.append(c);
    out
}

/// Whether two strings hold the same text.
pub fn same(a: &str, b: &str) -> (r: bool)
    ensures
        r == (a@ == b@),
{
    a.to_string() == b.to_string()
}

/// Whether `s` is one of `items`.
pub fn member(items: &Vec<String>, s: &str) -> (r: bool)
    ensures
        r == texts(items@).contains(s@),
{
    let mut i: usize = 0;
    while i < items.len()
        invariant
            i <= items.len(),
            forall|j: int| 0 <= j < i ==> texts(items@)[j] != s@,
        decreases items.len() - i,
    {
        if same(items[i].as_str(), s) {
            assert(texts(items@)[i as int] == s@);
            return true;
        }
        i += 1;
    }
    false
}

// ---------------------------------------------------------------------------
// Character classes
// ---------------------------------------------------------------------------
/// The characters with Unicode's `White_Space` property.
pub open spec fn is_space(c: char) -> bool {
    ||| '\u{9}' <= c <= '\u{d}'
    ||| c == ' '
    ||| c == '\u{85}'
    ||| c == '\u{a0}'
    ||| c == '\u{1680}'
    ||| '\u{2000}' <= c <= '\u{200a}'
    ||| c == '\u{2028}'
    ||| c == '\u{2029}'
    ||| c == '\u{202f}'
    ||| c == '\u{205f}'
    ||| c == '\u{3000}'
}

/// Whether `c` is white space.
pub fn space(c: char) -> (r: bool)
    ensures
        r == is_space(c),
{
    ('\u{9}' <= c && c <= '\u{d}') || c == ' ' || c == '\u{85}' || c == '\u{a0}' || c == '\u{1680}'
        || ('\u{2000}' <= c && c <= '\u{200a}') || c == '\u{2028}' || c == '\u{2029}' || c
        == '\u{202f}' || c == '\u{205f}' || c == '\u{3000}'
}

/// `0` to `9`.
pub open spec fn is_digit(c: char) -> bool {
    '0' <= c <= '9'
}

/// An ASCII letter.
pub open spec fn is_letter(c: char) -> bool {
    'a' <= c <= 'z' || 'A' <= c <= 'Z'
}

/// An ASCII letter, a digit or `_`.
pub open spec fn is_name_char(c: char) -> bool {
    c == '_' || is_letter(c) || is_digit(c)
}

/// Whether `c` is an ASCII digit.
pub fn digit(c: char) -> (r: bool)
    ensures
        r == is_digit(c),
{
    '0' <= c && c <= '9'
}

/// Whether `c` is an ASCII letter.
pub fn letter(c: char) -> (r: bool)
    ensures
        r == is_letter(c),
{
    ('a' <= c && c <= 'z') || ('A' <= c && c <= 'Z')
}

/// Whether `c` can stand inside a variable name.
pub fn name_char(c: char) -> (r: bool)
    ensures
        r == is_name_char(c),
{
    c == '_' || letter(c) || digit(c)
}

// ---------------------------------------------------------------------------
// Searching
// ---------------------------------------------------------------------------
/// The first position at or after `from` that holds `c`; `s.len()` if there is none.
pub open spec fn index_from(s: Seq<char>, c: char, from: int) -> int
    decreases s.len() - from,
{
    if from >= s.len() {
        s.len() as int
    } else if s[from] == c {
        from
    } else {
        index_from(s, c, from + 1)
    }
}

pub proof fn lemma_index_from(s: Seq<char>, c: char, from: int)
    requires
        0 <= from <= s.len(),
    ensures
        from <= index_from(s, c, from) <= s.len(),
        index_from(s, c, from) < s.len() ==> s[index_from(s, c, from)] == c,
        forall|i: int| from <= i < index_from(s, c, from) ==> s[i] != c,
    decreases s.len() - from,
{
    if from < s.len() && s[from] != c {
        lemma_index_from(s, c, from + 1);
    }
}

/// The position [`index_from`] names.
pub fn find(cs: &Vec<char>, c: char, from: usize) -> (r: usize)
    requires
        from <= cs.len(),
    ensures
        r == index_from(cs@, c, from as int),
        from <= r <= cs.len(),
        r < cs.len() ==> cs@[r as int] == c,
{
    let mut i: usize = from;
    while i < cs.len() && cs[i] != c
        invariant
            from <= i <= cs.len(),
            index_from(cs@, c, from as int) == index_from(cs@, c, i as int),
        decreases cs.len() - i,
    {
        i += 1;
    }
    i
}

// ---------------------------------------------------------------------------
// Splitting and joining
// ---------------------------------------------------------------------------
/// The pieces of `s[from..]` between the characters `c`.
pub open spec fn split_from(s: Seq<char>, c: char, from: int) -> Seq<Seq<char>>
    decreases s.len() - from,
{
    if from < 0 || from > s.len() {
        Seq::empty()
    } else {
        let i = index_from(s, c, from);
        proof {
            lemma_index_from(s, c, from);
        }
        if i >= s.len() {
            seq![s.subrange(from, s.len() as int)]
        } else {
            seq![s.subrange(from, i)] + split_from(s, c, i + 1)
        }
    }
}

/// The pieces of `s` between the characters `c`; at least one.
pub open spec fn split(s: Seq<char>, c: char) -> Seq<Seq<char>> {
    split_from(s, c, 0)
}

/// The pieces that [`split`] names.
pub fn split_at_char(cs: &Vec<char>, c: char) -> (r: Vec<String>)
    ensures
        texts(r@) == split(cs@, c),
        r.len() > 0,
{
    let mut out: Vec<String> = Vec::new();
    let mut from: usize = 0;
    assert(texts(out@) + split_from(cs@, c, 0) =~= split(cs@, c));
    loop
        invariant
            from <= cs.len(),
            texts(out@) + split_from(cs@, c, from as int) == split(cs@, c),
        decreases cs.len() - from,
    {
        let i = find(cs, c, from);
        let ghost before = texts(out@);
        let piece = slice(cs, from, i);
        out.push(piece);
        assert(texts(out@) =~= before.push(piece@));
        if i >= cs.len() {
            assert(texts(out@) =~= split(cs@, c));
            return out;
        }
        assert(texts(out@) + split_from(cs@, c, i + 1) =~= before + split_from(
            cs@,
            c,
            from as int,
        ));
        from = i + 1;
    }
}

/// The items with `sep` between each two.
pub open spec fn joined(items: Seq<Seq<char>>, sep: Seq<char>) -> Seq<char>
    decreases items.len(),
{
    if items.len() == 0 {
        Seq::empty()
    } else if items.len() == 1 {
        items[0]
    } else {
        joined(items.drop_last(), sep) + sep + items.last()
    }
}

/// The text that [`joined`] names.
pub fn join(items: &Vec<String>, sep: &str) -> (r: String)
    ensures
        r@ == joined(texts(items@), sep@),
{
    let mut out = String::new();
    let mut i: usize = 0;
    let ghost all = texts(items@);
    while i < items.len()
        invariant
            i <= items.len(),
            all == texts(items@),
            out@ == joined(all.take(i as int), sep@),
        decreases items.len() - i,
    {
        if i > 0 {
            out.append(sep);
        }
        out.append(items[i].as_str());
        proof {
            assert(all.take(i + 1).drop_last() =~= all.take(i as int));
            assert(all.take(i + 1).last() == items@[i as int]@);
            if i == 0 {
                assert(out@ =~= items@[0]@);
            }
        }
        i += 1;
    }
    assert(all.take(i as int) =~= all);
    out
}

/// A copy of the strings.
pub fn copy_strings(v: &Vec<String>) -> (r: Vec<String>)
    ensures
        texts(r@) == texts(v@),
{
    let mut out: Vec<String> = Vec::new();
    let mut i: usize = 0;
    while i < v.len()
        invariant
            i <= v.len(),
            texts(out@) == texts(v@).take(i as int),
        decreases v.len() - i,
    {
        let ghost before = texts(out@);
        out.push(v[i].clone());
        assert(texts(out@) =~= before.push(v@[i as int]@));
        assert(texts(out@) =~= texts(v@).take(i + 1));
        i += 1;
    }
    assert(texts(v@).take(i as int) =~= texts(v@));
    out
}

// ---------------------------------------------------------------------------
// Order
// ---------------------------------------------------------------------------
/// The dictionary order of texts by their characters: `a` comes before `b`, or
/// they are the same.
pub open spec fn le(a: Seq<char>, b: Seq<char>) -> bool
    decreases a.len(),
{
    if a.len() == 0 {
        true
    } else if b.len() == 0 {
        false
    } else if a[0] == b[0] {
        le(a.drop_first(), b.drop_first())
    } else {
        a[0] < b[0]
    }
}

/// Whether each text comes before the next, or is the same.
pub open spec fn sorted(v: Seq<Seq<char>>) -> bool {
    forall|i: int, j: int| 0 <= i <= j < v.len() ==> le(#[trigger] v[i], #[trigger] v[j])
}

pub proof fn lemma_le_total(a: Seq<char>, b: Seq<char>)
    ensures
        le(a, b) || le(b, a),
        le(a, b) && le(b, a) ==> a == b,
        le(a, a),
    decreases a.len(),
{
    if a.len() > 0 && b.len() > 0 {
        lemma_le_total(a.drop_first(), b.drop_first());
        if a[0] == b[0] && a.drop_first() == b.drop_first() {
            assert(a =~= seq![a[0]] + a.drop_first());
            assert(b =~= seq![b[0]] + b.drop_first());
        }
    } else if a.len() == 0 && b.len() == 0 {
        assert(a =~= b);
    }
    if a.len() > 0 {
        lemma_le_total(a.drop_first(), a.drop_first());
    }
}

pub proof fn lemma_le_transitive(a: Seq<char>, b: Seq<char>, c: Seq<char>)
    requires
        le(a, b),
        le(b, c),
    ensures
        le(a, c),
    decreases a.len(),
{
    if a.len() > 0 && b.len() > 0 && c.len() > 0 && a[0] == b[0] && b[0] == c[0] {
        lemma_le_transitive(a.drop_first(), b.drop_first(), c.drop_first());
    }
}

/// Whether `a` comes before `b`, or is the same.
pub fn not_after(a: &str, b: &str) -> (r: bool)
    ensures
        r == le(a@, b@),
{
    let x = chars(a);
    let y = chars(b);
    let mut i: usize = 0;
    assert(a@.skip(0) =~= a@ && b@.skip(0) =~= b@);
    while i < x.len() && i < y.len() && x[i] == y[i]
        invariant
            x@ == a@,
            y@ == b@,
            i <= x.len(),
            i <= y.len(),
            le(a@, b@) == le(a@.skip(i as int), b@.skip(i as int)),
        decreases x.len() - i,
    {
        assert(a@.skip(i as int).drop_first() =~= a@.skip(i + 1));
        assert(b@.skip(i as int).drop_first() =~= b@.skip(i + 1));
        i += 1;
    }
    if i >= x.len() {
        return true;
    }
    if i >= y.len() {
        return false;
    }
    x[i] < y[i]
}

/// The texts in dictionary order.
pub open spec fn in_order(v: Seq<Seq<char>>) -> Seq<Seq<char>> {
    v.sort_by(|a: Seq<char>, b: Seq<char>| le(a, b))
}

pub proof fn lemma_le_is_total_order()
    ensures
        vstd::relations::total_ordering(|a: Seq<char>, b: Seq<char>| le(a, b)),
{
    let leq = |a: Seq<char>, b: Seq<char>| le(a, b);
    assert forall|x: Seq<char>| #[trigger] leq(x, x) by {
        lemma_le_total(x, x);
    }
    assert forall|x: Seq<char>, y: Seq<char>| #[trigger] leq(x, y) && #[trigger] leq(y, x) implies x
        == y by {
        lemma_le_total(x, y);
    }
    assert forall|x: Seq<char>, y: Seq<char>| #[trigger] leq(x, y) || #[trigger] leq(y, x) by {
        lemma_le_total(x, y);
    }
    assert forall|x: Seq<char>, y: Seq<char>, z: Seq<char>| #[trigger]
        leq(x, y) && #[trigger] leq(y, z) implies leq(x, z) by {
        lemma_le_transitive(x, y, z);
    }
}

/// What is sorted and has the same items is the texts in order.
pub proof fn lemma_in_order(v: Seq<Seq<char>>, r: Seq<Seq<char>>)
    requires
        sorted(r),
        r.to_multiset() == v.to_multiset(),
    ensures
        r == in_order(v),
{
    let leq = |a: Seq<char>, b: Seq<char>| le(a, b);
    lemma_le_is_total_order();
    v.lemma_sort_by_ensures(leq);
    vstd::seq_lib::lemma_sorted_unique(r, v.sort_by(leq), leq);
}

pub proof fn lemma_in_order_len(v: Seq<Seq<char>>)
    ensures
        in_order(v).len() == v.len(),
        in_order(v).to_multiset() == v.to_multiset(),
{
    let leq = |a: Seq<char>, b: Seq<char>| le(a, b);
    lemma_le_is_total_order();
    v.lemma_sort_by_ensures(leq);
    v.to_multiset_ensures();
    v.sort_by(leq).to_multiset_ensures();
}

/// The strings in order.
pub fn sort(v: Vec<String>) -> (r: Vec<String>)
    ensures
        texts(r@) == in_order(texts(v@)),
        sorted(texts(r@)),
        texts(r@).to_multiset() == texts(v@).to_multiset(),
        r.len() == v.len(),
{
    let mut out: Vec<String> = Vec::new();
    let mut i: usize = 0;
    let ghost all = texts(v@);
    assert(all.take(0) =~= texts(out@));
    while i < v.len()
        invariant
            i <= v.len(),
            all == texts(v@),
            out.len() == i,
            sorted(texts(out@)),
            texts(out@).to_multiset() == all.take(i as int).to_multiset(),
        decreases v.len() - i,
    {
        let ghost before = texts(out@);
        let mut at: usize = 0;
        while at < out.len() && not_after(out[at].as_str(), v[i].as_str())
            invariant
                i < v.len(),
                at <= out.len(),
                before == texts(out@),
                forall|j: int| 0 <= j < at ==> le(#[trigger] before[j], v@[i as int]@),
            decreases out.len() - at,
        {
            assert(le(before[at as int], v@[i as int]@));
            at += 1;
        }
        out.insert(at, v[i].clone());
        proof {
            let x = v@[i as int]@;
            let after = texts(out@);
            assert(after =~= before.insert(at as int, x));
            if at < before.len() {
                lemma_le_total(before[at as int], x);
            }
            assert forall|j: int, k: int| 0 <= j <= k < after.len() implies le(
                #[trigger] after[j],
                #[trigger] after[k],
            ) by {
                lemma_le_total(x, x);
                if j < at && k == at {
                    assert(le(before[j], x));
                } else if j == at && k > at {
                    assert(le(x, before[at as int]));
                    assert(le(before[at as int], before[k - 1]));
                    lemma_le_transitive(x, before[at as int], before[k - 1]);
                } else if j < at && k > at {
                    assert(le(before[j], before[k - 1]));
                } else if j > at {
                    assert(le(before[j - 1], before[k - 1]));
                } else if k < at {
                    assert(le(before[j], before[k]));
                }
            }
            vstd::seq_lib::to_multiset_insert(before, at as int, x);
            assert(all.take(i + 1) =~= all.take(i as int).push(x));
            all.take(i as int).to_multiset_ensures();
        }
        i += 1;
    }
    assert(all.take(i as int) =~= all);
    proof {
        lemma_in_order(all, texts(out@));
    }
    out
}

// ---------------------------------------------------------------------------
// Trimming and words
// ---------------------------------------------------------------------------
/// The text without the white space in front.
pub open spec fn trimmed_start(s: Seq<char>) -> Seq<char>
    decreases s.len(),
{
    if s.len() > 0 && is_space(s[0]) {
        trimmed_start(s.drop_first())
    } else {
        s
    }
}

/// The text without the white space at its end.
pub open spec fn trimmed_end(s: Seq<char>) -> Seq<char>
    decreases s.len(),
{
    if s.len() > 0 && is_space(s.last()) {
        trimmed_end(s.drop_last())
    } else {
        s
    }
}

/// The text without the white space around it.
pub open spec fn trimmed(s: Seq<char>) -> Seq<char> {
    trimmed_end(trimmed_start(s))
}

/// The characters from `from` up to `to`.
pub fn cut(cs: &Vec<char>, from: usize, to: usize) -> (r: Vec<char>)
    requires
        from <= to <= cs.len(),
    ensures
        r@ == cs@.subrange(from as int, to as int),
{
    let mut out: Vec<char> = Vec::new();
    let mut i: usize = from;
    while i < to
        invariant
            from <= i <= to <= cs.len(),
            out@ == cs@.subrange(from as int, i as int),
        decreases to - i,
    {
        out.push(cs[i]);
        i += 1;
    }
    out
}

/// The string that holds these characters.
pub fn string(cs: &Vec<char>) -> (r: String)
    ensures
        r@ == cs@,
{
    assert(cs@.subrange(0, cs.len() as int) =~= cs@);
    slice(cs, 0, cs.len())
}

/// The text without the white space in front.
pub fn trim_start(cs: &Vec<char>) -> (r: Vec<char>)
    ensures
        r@ == trimmed_start(cs@),
{
    let mut from: usize = 0;
    assert(cs@.skip(0) =~= cs@);
    while from < cs.len() && space(cs[from])
        invariant
            from <= cs.len(),
            trimmed_start(cs@) == trimmed_start(cs@.skip(from as int)),
        decreases cs.len() - from,
    {
        assert(cs@.skip(from as int).drop_first() =~= cs@.skip(from + 1));
        from += 1;
    }
    assert(cs@.subrange(from as int, cs.len() as int) =~= cs@.skip(from as int));
    cut(cs, from, cs.len())
}

/// The text without the white space around it.
pub fn trim(cs: &Vec<char>) -> (r: Vec<char>)
    ensures
        r@ == trimmed(cs@),
{
    let front = trim_start(cs);
    let mut to: usize = front.len();
    assert(front@.take(to as int) =~= front@);
    while to > 0 && space(front[to - 1])
        invariant
            to <= front.len(),
            trimmed_end(front@) == trimmed_end(front@.take(to as int)),
        decreases to,
    {
        assert(front@.take(to as int).drop_last() =~= front@.take(to - 1));
        to -= 1;
    }
    assert(front@.subrange(0, to as int) =~= front@.take(to as int));
    cut(&front, 0, to)
}

/// The string without the white space around it.
pub fn trim_str(s: &str) -> (r: String)
    ensures
        r@ == trimmed(s@),
{
    string(&trim(&chars(s)))
}

/// The first position at or after `from` that holds no white space.
pub open spec fn space_end(s: Seq<char>, from: int) -> int
    decreases s.len() - from,
{
    if from >= s.len() || !is_space(s[from]) {
        from
    } else {
        space_end(s, from + 1)
    }
}

/// The first position at or after `from` that holds white space, or the end.
pub open spec fn word_end(s: Seq<char>, from: int) -> int
    decreases s.len() - from,
{
    if from >= s.len() || is_space(s[from]) {
        from
    } else {
        word_end(s, from + 1)
    }
}

pub proof fn lemma_word_bounds(s: Seq<char>, from: int)
    requires
        0 <= from <= s.len(),
    ensures
        from <= space_end(s, from) <= s.len(),
        from <= word_end(s, from) <= s.len(),
        from < s.len() && !is_space(s[from]) ==> from < word_end(s, from),
        space_end(s, from) < s.len() ==> !is_space(s[space_end(s, from)]),
    decreases s.len() - from,
{
    if from < s.len() {
        lemma_word_bounds(s, from + 1);
    }
}

/// The words from `from` on: the runs between white space.
pub open spec fn words_from(s: Seq<char>, from: int) -> Seq<Seq<char>>
    decreases s.len() - from,
{
    if from < 0 || from > s.len() {
        Seq::empty()
    } else {
        let start = space_end(s, from);
        let end = word_end(s, start);
        proof {
            lemma_word_bounds(s, from);
            lemma_word_bounds(s, start);
        }
        if start >= s.len() {
            Seq::empty()
        } else {
            seq![s.subrange(start, end)] + words_from(s, end)
        }
    }
}

/// The words of a text: the runs between white space.
pub open spec fn words(s: Seq<char>) -> Seq<Seq<char>> {
    words_from(s, 0)
}

/// The words of a text.
pub fn split_words(cs: &Vec<char>) -> (r: Vec<String>)
    ensures
        texts(r@) == words(cs@),
{
    let mut out: Vec<String> = Vec::new();
    let mut from: usize = 0;
    assert(texts(out@) + words_from(cs@, 0) =~= words(cs@));
    loop
        invariant
            from <= cs.len(),
            texts(out@) + words_from(cs@, from as int) == words(cs@),
        decreases cs.len() - from,
    {
        let ghost before = texts(out@);
        let mut start: usize = from;
        while start < cs.len() && space(cs[start])
            invariant
                from <= start <= cs.len(),
                space_end(cs@, from as int) == space_end(cs@, start as int),
            decreases cs.len() - start,
        {
            start += 1;
        }
        if start >= cs.len() {
            assert(texts(out@) =~= words(cs@));
            return out;
        }
        let mut end: usize = start;
        while end < cs.len() && !space(cs[end])
            invariant
                start <= end <= cs.len(),
                word_end(cs@, start as int) == word_end(cs@, end as int),
            decreases cs.len() - end,
        {
            end += 1;
        }
        proof {
            lemma_word_bounds(cs@, start as int);
        }
        let word = slice(cs, start, end);
        out.push(word);
        assert(texts(out@) =~= before.push(word@));
        assert(texts(out@) + words_from(cs@, end as int) =~= before + words_from(cs@, from as int));
        from = end;
    }
}

/// Whether the text starts with this prefix.
pub open spec fn has_prefix(s: Seq<char>, prefix: Seq<char>) -> bool {
    s.len() >= prefix.len() && s.take(prefix.len() as int) == prefix
}

/// Whether the text starts with this prefix.
pub fn starts_with(cs: &Vec<char>, prefix: &str) -> (r: bool)
    ensures
        r == has_prefix(cs@, prefix@),
{
    let p = chars(prefix);
    if cs.len() < p.len() {
        return false;
    }
    let mut i: usize = 0;
    while i < p.len()
        invariant
            i <= p.len() <= cs.len(),
            p@ == prefix@,
            forall|j: int| 0 <= j < i ==> cs@[j] == p@[j],
        decreases p.len() - i,
    {
        if cs[i] != p[i] {
            assert(cs@.take(p.len() as int)[i as int] != p@[i as int]);
            return false;
        }
        i += 1;
    }
    assert(cs@.take(p.len() as int) =~= p@);
    true
}

/// What follows a prefix, where the text starts with it.
pub open spec fn after_prefix(s: Seq<char>, prefix: Seq<char>) -> Option<Seq<char>> {
    if has_prefix(s, prefix) {
        Some(s.skip(prefix.len() as int))
    } else {
        None
    }
}

/// What follows a prefix, where the text starts with it.
pub fn strip_prefix(cs: &Vec<char>, prefix: &str) -> (r: Option<Vec<char>>)
    ensures
        match r {
            Some(rest) => after_prefix(cs@, prefix@) == Some(rest@),
            None => after_prefix(cs@, prefix@) is None,
        },
{
    if !starts_with(cs, prefix) {
        return None;
    }
    let n = chars(prefix).len();
    assert(cs@.subrange(n as int, cs.len() as int) =~= cs@.skip(n as int));
    Some(cut(cs, n, cs.len()))
}

/// Append the strings of one list to another.
pub fn extend(out: &mut Vec<String>, more: &Vec<String>)
    ensures
        texts(final(out)@) == texts(old(out)@) + texts(more@),
{
    let ghost start = texts(out@);
    let mut i: usize = 0;
    assert(start + texts(more@).take(0) =~= start);
    while i < more.len()
        invariant
            i <= more.len(),
            texts(out@) == start + texts(more@).take(i as int),
        decreases more.len() - i,
    {
        let ghost before = texts(out@);
        out.push(more[i].clone());
        assert(texts(out@) =~= before.push(more@[i as int]@));
        assert(texts(out@) =~= start + texts(more@).take(i + 1));
        i += 1;
    }
    assert(texts(more@).take(i as int) =~= texts(more@));
}

/// How many bytes a text takes.
pub open spec fn byte_len(s: Seq<char>) -> nat {
    vstd::utf8::encode_utf8(s).len()
}

/// A text filled up with spaces to a number of characters.
pub open spec fn padded(s: Seq<char>, width: nat) -> Seq<char> {
    if s.len() < width {
        s + Seq::new((width - s.len()) as nat, |i: int| ' ')
    } else {
        s
    }
}

/// A text filled up with spaces to a number of characters.
pub fn pad(s: &str, width: usize) -> (r: String)
    ensures
        r@ == padded(s@, width as nat),
{
    let n = chars(s).len();
    if n < width {
        join2(s, repeat(' ', width - n).as_str())
    } else {
        s.to_string()
    }
}

/// A text with spaces in front of it, up to a number of characters.
pub open spec fn right_aligned(s: Seq<char>, width: nat) -> Seq<char> {
    if s.len() < width {
        Seq::new((width - s.len()) as nat, |i: int| ' ') + s
    } else {
        s
    }
}

/// A text with spaces in front of it, up to a number of characters.
pub fn align_right(s: &str, width: usize) -> (r: String)
    ensures
        r@ == right_aligned(s@, width as nat),
{
    let n = chars(s).len();
    if n < width {
        join2(repeat(' ', width - n).as_str(), s)
    } else {
        s.to_string()
    }
}

/// The most bytes that one of the first `n` texts takes.
pub open spec fn widest(items: Seq<Seq<char>>, n: int) -> nat
    decreases n,
{
    if n <= 0 {
        0
    } else if byte_len(items[n - 1]) > widest(items, n - 1) {
        byte_len(items[n - 1])
    } else {
        widest(items, n - 1)
    }
}

/// The most bytes that one of the texts takes.
pub fn width_of(items: &Vec<String>) -> (r: usize)
    ensures
        r == widest(texts(items@), items.len() as int),
{
    let mut width: usize = 0;
    let mut i: usize = 0;
    while i < items.len()
        invariant
            i <= items.len(),
            width == widest(texts(items@), i as int),
        decreases items.len() - i,
    {
        let n = items[i].as_str().as_bytes().len();
        if n > width {
            width = n;
        }
        i += 1;
    }
    width
}

/// The decimal digits of a number.
pub open spec fn digits(n: nat) -> Seq<char>
    decreases n,
{
    if n < 10 {
        seq![digit_char(n as int)]
    } else {
        digits(n / 10).push(digit_char((n % 10) as int))
    }
}

/// The character of a digit.
pub open spec fn digit_char(d: int) -> char {
    if d == 0 {
        '0'
    } else if d == 1 {
        '1'
    } else if d == 2 {
        '2'
    } else if d == 3 {
        '3'
    } else if d == 4 {
        '4'
    } else if d == 5 {
        '5'
    } else if d == 6 {
        '6'
    } else if d == 7 {
        '7'
    } else if d == 8 {
        '8'
    } else {
        '9'
    }
}

/// A number in decimal.
pub open spec fn decimal(n: int) -> Seq<char> {
    if n < 0 {
        seq!['-'] + digits((-n) as nat)
    } else {
        digits(n as nat)
    }
}

fn digit_of(d: u64) -> (c: char)
    requires
        d < 10,
    ensures
        c == digit_char(d as int),
{
    if d == 0 {
        '0'
    } else if d == 1 {
        '1'
    } else if d == 2 {
        '2'
    } else if d == 3 {
        '3'
    } else if d == 4 {
        '4'
    } else if d == 5 {
        '5'
    } else if d == 6 {
        '6'
    } else if d == 7 {
        '7'
    } else if d == 8 {
        '8'
    } else {
        '9'
    }
}

/// A count in decimal.
pub fn count(n: u64) -> (r: String)
    ensures
        r@ == digits(n as nat),
    decreases n,
{
    if n < 10 {
        let r = unit(digit_of(n));
        assert(r@ =~= seq![digit_char(n as int)]);
        r
    } else {
        let mut r = count(n / 10);
        r.push(digit_of(n % 10));
        r
    }
}

/// A number in decimal.
pub fn number(n: i32) -> (r: String)
    ensures
        r@ == decimal(n as int),
{
    if n < 0 {
        let size = -(n as i64);
        let d = count(size as u64);
        let r = join2("-", d.as_str());
        proof {
            reveal_strlit("-");
            assert("-"@ =~= seq!['-']);
        }
        r
    } else {
        count(n as u64)
    }
}

// ---------------------------------------------------------------------------
// Splitting what was joined
// ---------------------------------------------------------------------------
proof fn lemma_index_shift(x: Seq<char>, y: Seq<char>, c: char, k: int)
    requires
        0 <= k <= y.len(),
    ensures
        index_from(x + y, c, x.len() + k) == x.len() + index_from(y, c, k),
    decreases y.len() - k,
{
    if k < y.len() {
        assert((x + y)[x.len() + k] == y[k]);
        if y[k] != c {
            lemma_index_shift(x, y, c, k + 1);
        }
    }
}

proof fn lemma_split_shift(x: Seq<char>, y: Seq<char>, c: char, k: int)
    requires
        0 <= k <= y.len(),
    ensures
        split_from(x + y, c, x.len() + k) == split_from(y, c, k),
    decreases y.len() - k,
{
    lemma_index_shift(x, y, c, k);
    lemma_index_from(y, c, k);
    let i = index_from(y, c, k);
    assert((x + y).subrange(x.len() + k, x.len() + i) =~= y.subrange(k, i));
    if i < y.len() {
        lemma_split_shift(x, y, c, i + 1);
    }
}

proof fn lemma_split_alone(a: Seq<char>, c: char)
    requires
        !a.contains(c),
    ensures
        split(a, c) == seq![a],
{
    lemma_index_from(a, c, 0);
    assert(index_from(a, c, 0) == a.len());
    assert(a.subrange(0, a.len() as int) =~= a);
}

proof fn lemma_split_first(a: Seq<char>, c: char, b: Seq<char>)
    requires
        !a.contains(c),
    ensures
        split(a + seq![c] + b, c) == seq![a] + split(b, c),
{
    let s = a + seq![c] + b;
    lemma_index_from(s, c, 0);
    let i = index_from(s, c, 0);
    assert(s[a.len() as int] == c);
    if i < a.len() {
        assert(s[i] == a[i]);
        assert(a.contains(c));
    }
    assert(i == a.len());
    assert(s.subrange(0, i) =~= a);
    let x = a + seq![c];
    assert(x + b =~= s);
    lemma_split_shift(x, b, c, 0);
}

pub proof fn lemma_joined_first(items: Seq<Seq<char>>, sep: Seq<char>)
    requires
        items.len() >= 2,
    ensures
        joined(items, sep) == items[0] + sep + joined(items.drop_first(), sep),
    decreases items.len(),
{
    let tail = items.drop_first();
    if items.len() == 2 {
        assert(items.drop_last() =~= seq![items[0]]);
        assert(joined(items.drop_last(), sep) == items[0]);
        assert(joined(tail, sep) == items[1]);
    } else {
        lemma_joined_first(items.drop_last(), sep);
        assert(items.drop_last().drop_first() =~= tail.drop_last());
        assert(joined(items, sep) =~= items[0] + sep + (joined(tail.drop_last(), sep) + sep
            + tail.last()));
    }
}

/// Items that were joined by a character that none of them holds are found again
/// by splitting there.
pub proof fn lemma_split_joined(items: Seq<Seq<char>>, c: char)
    requires
        items.len() > 0,
        forall|i: int| 0 <= i < items.len() ==> !(#[trigger] items[i]).contains(c),
    ensures
        split(joined(items, seq![c]), c) == items,
    decreases items.len(),
{
    assert(!items[0].contains(c));
    if items.len() == 1 {
        lemma_split_alone(items[0], c);
        assert(seq![items[0]] =~= items);
    } else {
        let tail = items.drop_first();
        assert forall|i: int| 0 <= i < tail.len() implies !(#[trigger] tail[i]).contains(c) by {
            assert(tail[i] == items[i + 1]);
        }
        lemma_split_joined(tail, c);
        lemma_joined_first(items, seq![c]);
        lemma_split_first(items[0], c, joined(tail, seq![c]));
        assert(seq![items[0]] + tail =~= items);
    }
}

proof fn lemma_split_from_pieces(s: Seq<char>, c: char, from: int)
    requires
        0 <= from <= s.len(),
    ensures
        split_from(s, c, from).len() > 0,
        forall|i: int|
            0 <= i < split_from(s, c, from).len() ==> !(#[trigger] split_from(s, c, from)[i]).contains(
                c,
            ),
    decreases s.len() - from,
{
    lemma_index_from(s, c, from);
    let i = index_from(s, c, from);
    let first = s.subrange(from, i);
    assert(!first.contains(c)) by {
        if first.contains(c) {
            let k = choose|k: int| 0 <= k < first.len() && first[k] == c;
            assert(s[from + k] == c);
        }
    }
    if i < s.len() {
        lemma_split_from_pieces(s, c, i + 1);
        let rest = split_from(s, c, i + 1);
        let all = split_from(s, c, from);
        assert forall|j: int| 0 <= j < all.len() implies !(#[trigger] all[j]).contains(c) by {
            if j > 0 {
                assert(all[j] == rest[j - 1]);
            }
        }
    }
}

/// No piece holds the character that was split at.
pub proof fn lemma_split_pieces(s: Seq<char>, c: char)
    ensures
        split(s, c).len() > 0,
        forall|i: int| 0 <= i < split(s, c).len() ==> !(#[trigger] split(s, c)[i]).contains(c),
{
    lemma_split_from_pieces(s, c, 0);
}

/// Whether there is no white space around a text.
pub open spec fn is_trimmed(s: Seq<char>) -> bool {
    s.len() == 0 || (!is_space(s[0]) && !is_space(s.last()))
}

proof fn lemma_trimmed_start(s: Seq<char>)
    ensures
        trimmed_start(s).len() <= s.len(),
        trimmed_start(s).len() > 0 ==> !is_space(trimmed_start(s)[0]),
        trimmed_start(s) == s.skip(s.len() - trimmed_start(s).len()),
    decreases s.len(),
{
    if s.len() > 0 && is_space(s[0]) {
        lemma_trimmed_start(s.drop_first());
        let t = trimmed_start(s);
        assert(s.drop_first().skip(s.len() - 1 - t.len()) =~= s.skip(s.len() - t.len()));
    } else {
        assert(s.skip(0) =~= s);
    }
}

proof fn lemma_trimmed_end(s: Seq<char>)
    ensures
        trimmed_end(s).len() <= s.len(),
        trimmed_end(s).len() > 0 ==> !is_space(trimmed_end(s).last()),
        trimmed_end(s) == s.take(trimmed_end(s).len() as int),
    decreases s.len(),
{
    if s.len() > 0 && is_space(s.last()) {
        lemma_trimmed_end(s.drop_last());
        let t = trimmed_end(s);
        assert(s.drop_last().take(t.len() as int) =~= s.take(t.len() as int));
    } else {
        assert(s.take(s.len() as int) =~= s);
    }
}

/// A trimmed text is trimmed, and what it does not hold the trimmed text does not
/// hold either.
pub proof fn lemma_trimmed(s: Seq<char>, c: char)
    ensures
        is_trimmed(trimmed(s)),
        !s.contains(c) ==> !trimmed(s).contains(c),
        is_trimmed(s) ==> trimmed(s) == s,
{
    lemma_trimmed_start(s);
    let t = trimmed_start(s);
    lemma_trimmed_end(t);
    let r = trimmed(s);
    if r.len() > 0 {
        assert(r[0] == t[0]);
    }
    if r.contains(c) {
        let i = choose|i: int| 0 <= i < r.len() && r[i] == c;
        assert(t[i] == c);
        assert(s[s.len() - t.len() + i] == c);
    }
}

/// A space in front of a trimmed text is trimmed away.
pub proof fn lemma_trimmed_spaced(s: Seq<char>)
    requires
        is_trimmed(s),
    ensures
        trimmed(seq![' '] + s) == s,
{
    let t = seq![' '] + s;
    assert(t.drop_first() =~= s);
    assert(is_space(t[0]));
    assert(trimmed_start(t) == trimmed_start(s));
    lemma_trimmed(s, ' ');
}

/// Whether a text is a word: not empty, and without white space.
pub open spec fn is_word(s: Seq<char>) -> bool {
    s.len() > 0 && forall|i: int| 0 <= i < s.len() ==> !is_space(#[trigger] s[i])
}

proof fn lemma_ends_shift(x: Seq<char>, y: Seq<char>, k: int)
    requires
        0 <= k <= y.len(),
    ensures
        space_end(x + y, x.len() + k) == x.len() + space_end(y, k),
        word_end(x + y, x.len() + k) == x.len() + word_end(y, k),
    decreases y.len() - k,
{
    if k < y.len() {
        assert((x + y)[x.len() + k] == y[k]);
        lemma_ends_shift(x, y, k + 1);
    }
}

proof fn lemma_words_shift(x: Seq<char>, y: Seq<char>, k: int)
    requires
        0 <= k <= y.len(),
    ensures
        words_from(x + y, x.len() + k) == words_from(y, k),
    decreases y.len() - k,
{
    lemma_ends_shift(x, y, k);
    lemma_word_bounds(y, k);
    let start = space_end(y, k);
    lemma_word_bounds(y, start);
    lemma_ends_shift(x, y, start);
    let end = word_end(y, start);
    if start < y.len() {
        assert((x + y).subrange(x.len() + start, x.len() + end) =~= y.subrange(start, end));
        lemma_words_shift(x, y, end);
    }
}

proof fn lemma_word_end_of(a: Seq<char>, b: Seq<char>, k: int)
    requires
        0 <= k <= a.len(),
        is_word(a),
        b.len() == 0 || is_space(b[0]),
    ensures
        word_end(a + b, k) == a.len(),
    decreases a.len() - k,
{
    if k < a.len() {
        assert((a + b)[k] == a[k]);
        lemma_word_end_of(a, b, k + 1);
    } else if b.len() > 0 {
        assert((a + b)[k] == b[0]);
    }
}

proof fn lemma_words_first(a: Seq<char>, b: Seq<char>)
    requires
        is_word(a),
        b.len() == 0 || is_space(b[0]),
    ensures
        words(a + b) == seq![a] + words(b),
{
    let s = a + b;
    assert(s[0] == a[0]);
    lemma_word_end_of(a, b, 0);
    assert(s.subrange(0, a.len() as int) =~= a);
    lemma_words_shift(a, b, 0);
}

/// Words that were joined by spaces are found again.
pub proof fn lemma_words_joined(items: Seq<Seq<char>>)
    requires
        forall|i: int| 0 <= i < items.len() ==> is_word(#[trigger] items[i]),
    ensures
        words(joined(items, seq![' '])) == items,
    decreases items.len(),
{
    if items.len() == 0 {
        assert(words(Seq::<char>::empty()) =~= items);
    } else if items.len() == 1 {
        assert(is_word(items[0]));
        lemma_words_first(items[0], Seq::empty());
        assert(items[0] + Seq::<char>::empty() =~= items[0]);
        assert(seq![items[0]] + words(Seq::<char>::empty()) =~= items);
    } else {
        assert(is_word(items[0]));
        let tail = items.drop_first();
        assert forall|i: int| 0 <= i < tail.len() implies is_word(#[trigger] tail[i]) by {
            assert(tail[i] == items[i + 1]);
        }
        lemma_words_joined(tail);
        lemma_joined_first(items, seq![' ']);
        let rest = joined(tail, seq![' ']);
        let b = seq![' '] + rest;
        assert(items[0] + seq![' '] + rest =~= items[0] + b);
        lemma_words_first(items[0], b);
        assert(b[0] == ' ' && is_space(b[0]));
        lemma_words_shift(seq![' '], rest, 0);
        lemma_word_bounds(b, 1);
        assert(space_end(b, 0) == space_end(b, 1));
        assert(words_from(b, 0) == words_from(b, 1));
        assert(seq![items[0]] + tail =~= items);
    }
}

proof fn lemma_words_from_are_words(s: Seq<char>, from: int)
    requires
        0 <= from <= s.len(),
    ensures
        forall|i: int|
            0 <= i < words_from(s, from).len() ==> is_word(#[trigger] words_from(s, from)[i]),
    decreases s.len() - from,
{
    let start = space_end(s, from);
    lemma_word_bounds(s, from);
    if start < s.len() {
        let end = word_end(s, start);
        lemma_word_bounds(s, start);
        lemma_word_end_chars(s, start);
        lemma_words_from_are_words(s, end);
        let first = s.subrange(start, end);
        assert(is_word(first));
        let rest = words_from(s, end);
        let all = words_from(s, from);
        assert forall|i: int| 0 <= i < all.len() implies is_word(#[trigger] all[i]) by {
            if i > 0 {
                assert(all[i] == rest[i - 1]);
            }
        }
    }
}

proof fn lemma_word_end_chars(s: Seq<char>, from: int)
    requires
        0 <= from <= s.len(),
    ensures
        forall|i: int| from <= i < word_end(s, from) ==> !is_space(#[trigger] s[i]),
    decreases s.len() - from,
{
    if from < s.len() && !is_space(s[from]) {
        lemma_word_end_chars(s, from + 1);
    }
}

/// The words of a text are words.
pub proof fn lemma_words_are_words(s: Seq<char>)
    ensures
        forall|i: int| 0 <= i < words(s).len() ==> is_word(#[trigger] words(s)[i]),
{
    lemma_words_from_are_words(s, 0);
}

// ---------------------------------------------------------------------------
// Laws
// ---------------------------------------------------------------------------
/// White space is what Unicode calls so: these characters and no others.
pub proof fn law_white_space(c: char)
    ensures
        is_space(c) <==> (9 <= c as int <= 13 || c as int == 32 || c as int == 0x85 || c as int
            == 0xa0 || c as int == 0x1680 || 0x2000 <= c as int <= 0x200a || c as int == 0x2028
            || c as int == 0x2029 || c as int == 0x202f || c as int == 0x205f || c as int
            == 0x3000),
        c == ' ' || c == '\t' || c == '\n' || c == '\r' ==> is_space(c),
        '!' <= c && c <= '~' ==> !is_space(c),
{
}

/// The letters, the digits and what a name is made of are those of ASCII.
pub proof fn law_character_classes(c: char)
    ensures
        is_letter(c) <==> (97 <= c as int <= 122 || 65 <= c as int <= 90),
        is_digit(c) <==> 48 <= c as int <= 57,
        is_name_char(c) <==> (97 <= c as int <= 122 || 65 <= c as int <= 90 || 48 <= c as int <= 57
            || c as int == 95),
{
}

/// Trimming takes all the white space off both ends, and nothing else: a text that
/// neither begins nor ends with white space is what is left of it with any white
/// space around it.
pub proof fn law_trimming(front: Seq<char>, s: Seq<char>, back: Seq<char>)
    requires
        forall|i: int| 0 <= i < front.len() ==> is_space(#[trigger] front[i]),
        forall|i: int| 0 <= i < back.len() ==> is_space(#[trigger] back[i]),
        s.len() > 0 ==> !is_space(s[0]) && !is_space(s[s.len() - 1]),
    ensures
        trimmed(front + s + back) == s,
        s.len() > 0 ==> trimmed_start(front + s + back) == s + back,
    decreases front.len(), back.len(),
{
    let t = front + s + back;
    if front.len() > 0 {
        assert(t.drop_first() =~= front.drop_first() + s + back);
        assert(t[0] == front[0]);
        law_trimming(front.drop_first(), s, back);
    } else if s.len() > 0 {
        assert(t =~= s + back);
        assert(t[0] == s[0]);
        assert(trimmed_start(t) == t);
        if back.len() > 0 {
            assert(t.last() == back.last());
            assert(t.drop_last() =~= s + back.drop_last());
            law_trimming(front, s, back.drop_last());
            assert(front + s + back.drop_last() =~= s + back.drop_last());
            assert(trimmed_start(s + back.drop_last()) == s + back.drop_last());
        } else {
            assert(t =~= s);
        }
    } else if back.len() > 0 {
        assert(t =~= back);
        assert(back.drop_first() =~= front + s + back.drop_first());
        law_trimming(front, s, back.drop_first());
    } else {
        assert(t =~= s);
    }
}

/// Every text is what trimming leaves of it, with white space around it.
pub proof fn law_trimming_finds_the_middle(s: Seq<char>) -> (r: (Seq<char>, Seq<char>))
    ensures
        s == r.0 + trimmed(s) + r.1,
        forall|i: int| 0 <= i < r.0.len() ==> is_space(#[trigger] r.0[i]),
        forall|i: int| 0 <= i < r.1.len() ==> is_space(#[trigger] r.1[i]),
        trimmed(s).len() > 0 ==> !is_space(trimmed(s)[0]) && !is_space(
            trimmed(s)[trimmed(s).len() - 1],
        ),
    decreases s.len(),
{
    let none = Seq::<char>::empty();
    if s.len() > 0 && is_space(s[0]) {
        let (a, b) = law_trimming_finds_the_middle(s.drop_first());
        assert(s =~= seq![s[0]] + s.drop_first());
        assert(s =~= (seq![s[0]] + a) + trimmed(s) + b);
        (seq![s[0]] + a, b)
    } else if s.len() > 0 && is_space(s.last()) {
        let t = s.drop_last();
        let (a, b) = law_trimming_finds_the_middle(t);
        assert(trimmed_start(t) == t) by {
            assert(t.len() > 0 ==> t[0] == s[0]);
        }
        assert(trimmed(s) == trimmed(t));
        assert(s =~= t.push(s.last()));
        assert(s =~= a + trimmed(s) + b.push(s.last()));
        (a, b.push(s.last()))
    } else {
        assert(s =~= none + s + none);
        (none, none)
    }
}

/// Joining puts the separator between any two neighbours, and nowhere else.
pub proof fn law_joining(a: Seq<Seq<char>>, b: Seq<Seq<char>>, sep: Seq<char>)
    requires
        a.len() > 0,
        b.len() > 0,
    ensures
        joined(a + b, sep) == joined(a, sep) + sep + joined(b, sep),
        a.len() == 1 ==> joined(a, sep) == a[0],
        joined(Seq::<Seq<char>>::empty(), sep) == Seq::<char>::empty(),
    decreases a.len(),
{
    if a.len() == 1 {
        assert((a + b).drop_first() =~= b);
        lemma_joined_first(a + b, sep);
    } else {
        let rest = a.drop_first();
        law_joining(rest, b, sep);
        assert((a + b).drop_first() =~= rest + b);
        lemma_joined_first(a + b, sep);
        lemma_joined_first(a, sep);
        assert(joined(a + b, sep) =~= joined(a, sep) + sep + joined(b, sep));
    }
}

/// Splitting cuts at every separator and nowhere else: no piece holds it, and the
/// pieces joined by it are the text again. Pieces that do not hold it are found
/// again where they were joined by it.
pub proof fn law_splitting(s: Seq<char>, pieces: Seq<Seq<char>>, c: char)
    ensures
        joined(split(s, c), seq![c]) == s,
        forall|i: int| 0 <= i < split(s, c).len() ==> !(#[trigger] split(s, c)[i]).contains(c),
        pieces.len() > 0 && (forall|i: int|
            0 <= i < pieces.len() ==> !(#[trigger] pieces[i]).contains(c)) ==> split(
            joined(pieces, seq![c]),
            c,
        ) == pieces,
{
    lemma_split_pieces(s, c);
    lemma_split_is_joined(s, c, 0);
    assert(s.skip(0) =~= s);
    if pieces.len() > 0 && (forall|i: int|
        0 <= i < pieces.len() ==> !(#[trigger] pieces[i]).contains(c)) {
        lemma_split_joined(pieces, c);
    }
}

proof fn lemma_split_is_joined(s: Seq<char>, c: char, from: int)
    requires
        0 <= from <= s.len(),
    ensures
        split_from(s, c, from).len() > 0,
        joined(split_from(s, c, from), seq![c]) == s.skip(from),
    decreases s.len() - from,
{
    let i = index_from(s, c, from);
    lemma_index_from(s, c, from);
    if i < s.len() {
        lemma_split_is_joined(s, c, i + 1);
        let rest = split_from(s, c, i + 1);
        law_joining(seq![s.subrange(from, i)], rest, seq![c]);
        assert(s.skip(from) =~= s.subrange(from, i) + seq![c] + s.skip(i + 1));
    } else {
        assert(s.skip(from) =~= s.subrange(from, s.len() as int));
    }
}

/// White space separates words, and nothing else does: a text without any is one
/// word, an empty one is none, and a white space between two texts leaves the words
/// of both.
pub proof fn law_words(a: Seq<char>, space: char, b: Seq<char>)
    requires
        is_space(space),
    ensures
        words(a + seq![space] + b) == words(a) + words(b),
        words(Seq::<char>::empty()) == Seq::<Seq<char>>::empty(),
        a.len() > 0 && (forall|i: int| 0 <= i < a.len() ==> !is_space(#[trigger] a[i])) ==> words(a)
            == seq![a],
{
    lemma_words_split(a, space, b, 0);
    assert(words(Seq::<char>::empty()) =~= Seq::<Seq<char>>::empty());
    if a.len() > 0 && (forall|i: int| 0 <= i < a.len() ==> !is_space(#[trigger] a[i])) {
        lemma_word_runs(a, 0);
        assert(space_end(a, 0) == 0);
        assert(a.subrange(0, a.len() as int) =~= a);
        assert(words_from(a, a.len() as int) =~= Seq::<Seq<char>>::empty());
        assert(words(a) =~= seq![a]);
    }
}

proof fn lemma_word_runs(a: Seq<char>, from: int)
    requires
        0 <= from <= a.len(),
        forall|i: int| 0 <= i < a.len() ==> !is_space(#[trigger] a[i]),
    ensures
        word_end(a, from) == a.len(),
    decreases a.len() - from,
{
    if from < a.len() {
        lemma_word_runs(a, from + 1);
    }
}

proof fn lemma_ends_within(a: Seq<char>, space: char, b: Seq<char>, from: int)
    requires
        is_space(space),
        0 <= from <= a.len(),
    ensures
        word_end(a + seq![space] + b, from) == word_end(a, from),
        space_end(a, from) < a.len() ==> space_end(a + seq![space] + b, from) == space_end(a, from),
        space_end(a, from) >= a.len() ==> space_end(a + seq![space] + b, from) == a.len() + 1
            + space_end(b, 0),
    decreases a.len() - from,
{
    let s = a + seq![space] + b;
    if from < a.len() {
        assert(s[from] == a[from]);
        lemma_ends_within(a, space, b, from + 1);
    } else {
        assert(s[from] == space);
        let x = a + seq![space];
        lemma_ends_shift(x, b, 0);
        assert(x + b =~= s);
    }
}

proof fn lemma_words_split(a: Seq<char>, space: char, b: Seq<char>, from: int)
    requires
        is_space(space),
        0 <= from <= a.len(),
    ensures
        words_from(a + seq![space] + b, from) == words_from(a, from) + words(b),
    decreases a.len() - from,
{
    let s = a + seq![space] + b;
    let x = a + seq![space];
    lemma_word_bounds(a, from);
    lemma_ends_within(a, space, b, from);
    let start = space_end(a, from);
    if start < a.len() {
        lemma_word_bounds(a, start);
        lemma_ends_within(a, space, b, start);
        let end = word_end(a, start);
        assert(s.subrange(start, end) =~= a.subrange(start, end));
        lemma_words_split(a, space, b, end);
        assert(words_from(s, from) =~= words_from(a, from) + words(b));
    } else {
        assert(x + b =~= s);
        let there = space_end(b, 0);
        lemma_word_bounds(b, 0);
        lemma_word_bounds(b, there);
        lemma_ends_shift(x, b, there);
        let end = word_end(b, there);
        if there < b.len() {
            assert(s.subrange(x.len() + there, x.len() + end) =~= b.subrange(there, end));
            lemma_words_shift(x, b, end);
        }
        assert(words_from(s, from) =~= words(b));
        assert(words_from(a, from) =~= Seq::<Seq<char>>::empty());
    }
}

/// A prefix is what a text begins with, and what is behind it is the rest.
pub proof fn law_prefixes(s: Seq<char>, prefix: Seq<char>, rest: Seq<char>)
    ensures
        after_prefix(s, prefix) == Some(rest) <==> s == prefix + rest,
        has_prefix(prefix + rest, prefix),
        has_prefix(s, prefix) <==> after_prefix(s, prefix) is Some,
        after_prefix(s, prefix) matches Some(r) ==> s == prefix + r,
{
    assert((prefix + rest).take(prefix.len() as int) =~= prefix);
    assert((prefix + rest).skip(prefix.len() as int) =~= rest);
    if has_prefix(s, prefix) {
        assert(s =~= prefix + s.skip(prefix.len() as int));
    }
}

/// Texts are ordered by the first character in which they differ, and a text comes
/// before its continuations.
pub proof fn law_text_order(p: Seq<char>, x: char, a: Seq<char>, y: char, b: Seq<char>)
    requires
        x != y,
    ensures
        le(p + seq![x] + a, p + seq![y] + b) <==> x < y,
        le(p, p + a),
        a.len() > 0 ==> !le(p + a, p),
    decreases p.len(),
{
    let s = p + seq![x] + a;
    let t = p + seq![y] + b;
    if p.len() > 0 {
        let q = p.drop_first();
        law_text_order(q, x, a, y, b);
        assert(s.drop_first() =~= q + seq![x] + a);
        assert(t.drop_first() =~= q + seq![y] + b);
        assert((p + a).drop_first() =~= q + a);
        assert(s[0] == p[0] && t[0] == p[0] && (p + a)[0] == p[0]);
    } else {
        assert(s[0] == x && t[0] == y);
        assert(p + a =~= a);
    }
}

/// The number that a row of digits stands for.
pub open spec fn digits_value(s: Seq<char>) -> int
    decreases s.len(),
{
    if s.len() == 0 {
        0
    } else {
        digits_value(s.drop_last()) * 10 + (s.last() as int - '0' as int)
    }
}

/// A number is written in the digits that stand for it, without zeros in front, and
/// with a `-` where it is negative.
pub proof fn law_numbers_read_back(n: int)
    ensures
        n >= 0 ==> digits_value(decimal(n)) == n && forall|i: int|
            0 <= i < decimal(n).len() ==> '0' <= #[trigger] decimal(n)[i] && decimal(n)[i] <= '9',
        n > 0 ==> decimal(n)[0] != '0',
        n == 0 ==> decimal(n) == seq!['0'],
        n < 0 ==> decimal(n) == seq!['-'] + decimal(-n),
{
    if n >= 0 {
        lemma_digits_value(n as nat);
    }
}

proof fn lemma_digits_value(n: nat)
    ensures
        digits(n).len() > 0,
        digits_value(digits(n)) == n,
        forall|i: int| 0 <= i < digits(n).len() ==> '0' <= #[trigger] digits(n)[i] && digits(n)[i]
            <= '9',
        n > 0 ==> digits(n)[0] != '0',
    decreases n,
{
    if n < 10 {
        assert(digits(n).drop_last() =~= Seq::empty());
        assert(digits_value(Seq::empty()) == 0);
    } else {
        lemma_digits_value(n / 10);
        let front = digits(n / 10);
        assert(digits(n).drop_last() =~= front);
        assert(n == (n / 10) * 10 + n % 10);
    }
}

/// Padding adds spaces up to the width, behind the text or in front of it, and
/// cuts nothing off.
pub proof fn law_padding(s: Seq<char>, width: nat)
    ensures
        padded(s, width).len() == if s.len() < width {
            width
        } else {
            s.len()
        },
        right_aligned(s, width).len() == padded(s, width).len(),
        padded(s, width).take(s.len() as int) == s,
        right_aligned(s, width).skip(right_aligned(s, width).len() - s.len()) == s,
        forall|i: int| s.len() <= i < padded(s, width).len() ==> #[trigger] padded(s, width)[i] == ' ',
        forall|i: int|
            0 <= i < right_aligned(s, width).len() - s.len() ==> #[trigger] right_aligned(s, width)[i]
                == ' ',
{
    assert(padded(s, width).take(s.len() as int) =~= s);
    assert(right_aligned(s, width).skip(right_aligned(s, width).len() - s.len()) =~= s);
}

/// The widest of some texts is as wide as one of them, and none is wider.
pub proof fn law_widest(items: Seq<Seq<char>>, n: int)
    requires
        0 <= n <= items.len(),
    ensures
        forall|i: int| 0 <= i < n ==> byte_len(#[trigger] items[i]) <= widest(items, n),
        n > 0 ==> exists|i: int| 0 <= i < n && byte_len(#[trigger] items[i]) == widest(items, n),
        n == 0 ==> widest(items, n) == 0,
    decreases n,
{
    if n > 0 {
        law_widest(items, n - 1);
        if byte_len(items[n - 1]) > widest(items, n - 1) {
            assert(byte_len(items[n - 1]) == widest(items, n));
        } else if n == 1 {
            assert(byte_len(items[0]) == widest(items, 1));
        }
    }
}

} // verus!
