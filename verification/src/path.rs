//! Paths as text.
//!
//! A path is a string with `/` between its components. Paths that leave the
//! process (a glob match that becomes an argument, a package's location that is
//! printed and matched against patterns) are rebuilt from their components, so
//! redundant and trailing separators are gone.

use vstd::prelude::*;

use crate::text;

verus! {

/// Whether a path starts at the root.
pub open spec fn is_absolute(p: Seq<char>) -> bool {
    p.len() > 0 && p[0] == '/'
}

/// The named pieces among the first `n`: neither an empty one nor a `.`, unless
/// the `.` leads.
pub open spec fn named(pieces: Seq<Seq<char>>, n: int) -> Seq<Seq<char>>
    decreases n,
{
    if n <= 0 {
        Seq::empty()
    } else {
        let piece = pieces[n - 1];
        if piece.len() == 0 || (piece == seq!['.'] && n > 1) {
            named(pieces, n - 1)
        } else {
            named(pieces, n - 1).push(piece)
        }
    }
}

/// The components of a path behind its root.
pub open spec fn components(p: Seq<char>) -> Seq<Seq<char>> {
    let pieces = text::split(p, '/');
    named(pieces, pieces.len() as int)
}

/// A path, rendered: its root, and its components with `/` between them.
pub open spec fn rendered(absolute: bool, parts: Seq<Seq<char>>) -> Seq<char> {
    if absolute {
        seq!['/'] + text::joined(parts, seq!['/'])
    } else {
        text::joined(parts, seq!['/'])
    }
}

/// A path, rebuilt from its components.
pub open spec fn slashed(p: Seq<char>) -> Seq<char> {
    rendered(is_absolute(p), components(p))
}

/// Whether `p` is `base` or sits under it.
pub open spec fn is_under(base: Seq<char>, p: Seq<char>) -> bool {
    &&& is_absolute(base) == is_absolute(p)
    &&& components(base).len() <= components(p).len()
    &&& components(p).take(components(base).len() as int) == components(base)
}

/// `p` from `base` on, where it sits under it; all of it elsewhere.
pub open spec fn relative(base: Seq<char>, p: Seq<char>) -> Seq<char> {
    if is_under(base, p) {
        rendered(false, components(p).skip(components(base).len() as int))
    } else {
        slashed(p)
    }
}

/// `p` seen from `base`: `p` itself when it is absolute.
pub open spec fn joined_path(base: Seq<char>, p: Seq<char>) -> Seq<char> {
    if is_absolute(p) || base.len() == 0 {
        p
    } else if base.last() == '/' {
        base + p
    } else {
        base + seq!['/'] + p
    }
}

/// Whether a path starts at the root.
pub fn absolute(p: &str) -> (r: bool)
    ensures
        r == is_absolute(p@),
{
    let cs = text::chars(p);
    cs.len() > 0 && cs[0] == '/'
}

/// The components of a path behind its root.
pub fn parts(p: &str) -> (r: Vec<String>)
    ensures
        text::texts(r@) == components(p@),
{
    let cs = text::chars(p);
    let pieces = text::split_at_char(&cs, '/');
    let ghost all = text::texts(pieces@);
    let mut out: Vec<String> = Vec::new();
    let mut i: usize = 0;
    while i < pieces.len()
        invariant
            i <= pieces.len(),
            all == text::texts(pieces@),
            text::texts(out@) == named(all, i as int),
        decreases pieces.len() - i,
    {
        let piece = text::chars(pieces[i].as_str());
        let ghost before = text::texts(out@);
        assert(piece@ == all[i as int]);
        let lone_dot = piece.len() == 1 && piece[0] == '.';
        assert(lone_dot == (piece@ =~= seq!['.']));
        if !(piece.len() == 0 || (lone_dot && i > 0)) {
            out.push(pieces[i].clone());
            assert(text::texts(out@) =~= before.push(piece@));
        }
        i += 1;
    }
    out
}

/// Render a path from its root and its components.
pub fn render(absolute: bool, parts: &Vec<String>) -> (r: String)
    ensures
        r@ == rendered(absolute, text::texts(parts@)),
{
    let sep = text::unit('/');
    let body = text::join(parts, sep.as_str());
    if absolute {
        text::join2(sep.as_str(), body.as_str())
    } else {
        body
    }
}

/// Render `path` with single `/` separators. A component is copied verbatim: a
/// `\` that is part of a file name stays.
pub fn to_slash(path: &str) -> (r: String)
    ensures
        r@ == slashed(path@),
{
    render(absolute(path), &parts(path))
}

/// The components from position `n` on.
pub fn skip(parts: &Vec<String>, n: usize) -> (r: Vec<String>)
    requires
        n <= parts.len(),
    ensures
        text::texts(r@) == text::texts(parts@).skip(n as int),
{
    let mut out: Vec<String> = Vec::new();
    let mut i: usize = n;
    while i < parts.len()
        invariant
            n <= i <= parts.len(),
            text::texts(out@) == text::texts(parts@).subrange(n as int, i as int),
        decreases parts.len() - i,
    {
        let ghost before = text::texts(out@);
        out.push(parts[i].clone());
        assert(text::texts(out@) =~= before.push(parts@[i as int]@));
        assert(text::texts(out@) =~= text::texts(parts@).subrange(n as int, i + 1));
        i += 1;
    }
    assert(text::texts(out@) =~= text::texts(parts@).skip(n as int));
    out
}

/// Whether `path` is `base` or sits under it.
pub fn under(base: &str, path: &str) -> (r: bool)
    ensures
        r == is_under(base@, path@),
{
    let b = parts(base);
    let p = parts(path);
    let ghost bs = text::texts(b@);
    let ghost ps = text::texts(p@);
    if absolute(base) != absolute(path) || b.len() > p.len() {
        return false;
    }
    let mut i: usize = 0;
    while i < b.len()
        invariant
            i <= b.len() <= p.len(),
            bs == text::texts(b@),
            ps == text::texts(p@),
            bs == components(base@),
            ps == components(path@),
            ps.take(i as int) == bs.take(i as int),
        decreases b.len() - i,
    {
        if !text::same(b[i].as_str(), p[i].as_str()) {
            assert(bs[i as int] != ps[i as int]);
            assert(ps.take(bs.len() as int)[i as int] == ps[i as int]);
            return false;
        }
        assert(ps.take(i + 1) =~= ps.take(i as int).push(ps[i as int]));
        assert(bs.take(i + 1) =~= bs.take(i as int).push(bs[i as int]));
        i += 1;
    }
    assert(bs.take(i as int) =~= bs);
    true
}

/// Render `path` relative to `base`. The whole path comes out when it does not
/// sit under `base`.
pub fn rel_to_slash(base: &str, path: &str) -> (r: String)
    ensures
        r@ == relative(base@, path@),
{
    if under(base, path) {
        let b = parts(base);
        let p = parts(path);
        render(false, &skip(&p, b.len()))
    } else {
        to_slash(path)
    }
}

/// `path` seen from `base`.
pub fn join(base: &str, path: &str) -> (r: String)
    ensures
        r@ == joined_path(base@, path@),
{
    let b = text::chars(base);
    if absolute(path) || b.len() == 0 {
        return path.to_string();
    }
    if b[b.len() - 1] == '/' {
        return text::join2(base, path);
    }
    let sep = text::unit('/');
    text::join3(base, sep.as_str(), path)
}

// ---------------------------------------------------------------------------
// Laws
// ---------------------------------------------------------------------------
/// Whether these can be the components of a path: none is empty, none holds a
/// separator, and `.` stands nowhere but at the front of a relative path.
pub open spec fn are_components(absolute: bool, parts: Seq<Seq<char>>) -> bool {
    forall|i: int|
        0 <= i < parts.len() ==> (#[trigger] parts[i]).len() > 0 && !parts[i].contains('/') && (
        parts[i] == seq!['.'] ==> i == 0 && !absolute)
}

proof fn lemma_named(pieces: Seq<Seq<char>>, n: int, absolute: bool)
    requires
        0 <= n <= pieces.len(),
        forall|i: int| 0 <= i < pieces.len() ==> !(#[trigger] pieces[i]).contains('/'),
        absolute ==> pieces.len() > 0 && pieces[0].len() == 0,
    ensures
        are_components(absolute, named(pieces, n)),
        n <= 1 ==> named(pieces, n).len() <= n,
    decreases n,
{
    if n > 0 {
        lemma_named(pieces, n - 1, absolute);
        let before = named(pieces, n - 1);
        let all = named(pieces, n);
        assert forall|i: int| 0 <= i < all.len() implies (#[trigger] all[i]).len() > 0
            && !all[i].contains('/') && (all[i] == seq!['.'] ==> i == 0 && !absolute) by {
            if i < before.len() {
                assert(all[i] == before[i]);
            } else {
                assert(all[i] == pieces[n - 1]);
            }
        }
    }
}

proof fn lemma_named_all(pieces: Seq<Seq<char>>, n: int)
    requires
        0 <= n <= pieces.len(),
        are_components(false, pieces),
    ensures
        named(pieces, n) == pieces.take(n),
    decreases n,
{
    if n > 0 {
        lemma_named_all(pieces, n - 1);
        assert(pieces[n - 1].len() > 0);
        assert(pieces.take(n) =~= pieces.take(n - 1).push(pieces[n - 1]));
    } else {
        assert(pieces.take(0) =~= Seq::empty());
    }
}

proof fn lemma_named_absolute(pieces: Seq<Seq<char>>, parts: Seq<Seq<char>>, n: int)
    requires
        pieces == seq![Seq::<char>::empty()] + parts,
        are_components(true, parts),
        0 <= n <= parts.len(),
    ensures
        named(pieces, n + 1) == parts.take(n),
    decreases n,
{
    if n > 0 {
        lemma_named_absolute(pieces, parts, n - 1);
        assert(pieces[n] == parts[n - 1]);
        assert(parts[n - 1].len() > 0);
        assert(parts.take(n) =~= parts.take(n - 1).push(parts[n - 1]));
    } else {
        assert(pieces[0].len() == 0);
        assert(named(pieces, 0) =~= Seq::empty());
        assert(parts.take(0) =~= Seq::empty());
    }
}

pub proof fn lemma_components_of(p: Seq<char>)
    ensures
        are_components(is_absolute(p), components(p)),
{
    let pieces = text::split(p, '/');
    text::lemma_split_pieces(p, '/');
    if is_absolute(p) {
        assert(text::index_from(p, '/', 0) == 0);
        assert(pieces[0] =~= Seq::<char>::empty());
    }
    lemma_named(pieces, pieces.len() as int, is_absolute(p));
}

/// The components of a rendered path are the ones it was rendered from.
pub proof fn law_rendering_keeps_components(absolute: bool, parts: Seq<Seq<char>>)
    requires
        are_components(absolute, parts),
    ensures
        components(rendered(absolute, parts)) == parts,
        is_absolute(rendered(absolute, parts)) == absolute,
{
    let s = text::joined(parts, seq!['/']);
    if absolute {
        let p = seq!['/'] + s;
        let pieces = seq![Seq::<char>::empty()] + parts;
        if parts.len() == 0 {
            assert(p =~= seq!['/']);
            let two = seq![Seq::<char>::empty(), Seq::<char>::empty()];
            assert(text::joined(two, seq!['/']) =~= seq!['/']) by {
                assert(two.drop_last() =~= seq![Seq::<char>::empty()]);
                assert(text::joined(two.drop_last(), seq!['/']) == Seq::<char>::empty());
            }
            text::lemma_split_joined(two, '/');
            assert(named(two, 2) =~= Seq::empty()) by {
                reveal_with_fuel(named, 3);
            }
            assert(components(p) =~= parts);
        } else {
            text::lemma_joined_first(pieces, seq!['/']);
            assert(pieces.drop_first() =~= parts);
            assert(text::joined(pieces, seq!['/']) =~= p);
            assert forall|i: int| 0 <= i < pieces.len() implies !(#[trigger] pieces[i]).contains(
                '/',
            ) by {
                if i > 0 {
                    assert(pieces[i] == parts[i - 1]);
                }
            }
            text::lemma_split_joined(pieces, '/');
            lemma_named_absolute(pieces, parts, parts.len() as int);
            assert(parts.take(parts.len() as int) =~= parts);
        }
    } else if parts.len() == 0 {
        assert(s =~= Seq::<char>::empty());
        let one = seq![Seq::<char>::empty()];
        text::lemma_split_joined(one, '/');
        assert(named(one, 1) =~= Seq::empty()) by {
            reveal_with_fuel(named, 2);
        }
    } else {
        text::lemma_split_joined(parts, '/');
        lemma_named_all(parts, parts.len() as int);
        assert(parts.take(parts.len() as int) =~= parts);
        assert(parts[0].len() > 0);
        if parts.len() > 1 {
            text::lemma_joined_first(parts, seq!['/']);
        }
        assert(s[0] == parts[0][0]);
        if s[0] == '/' {
            assert(parts[0].contains('/'));
        }
    }
}

/// A path that was rebuilt stays as it is when it is rebuilt again, and names the
/// same components as before.
pub proof fn law_slashes_are_stable(p: Seq<char>)
    ensures
        components(slashed(p)) == components(p),
        slashed(slashed(p)) == slashed(p),
{
    lemma_components_of(p);
    law_rendering_keeps_components(is_absolute(p), components(p));
}

/// The pieces between slashes that name something: neither empty nor `.`.
pub open spec fn naming(pieces: Seq<Seq<char>>) -> Seq<Seq<char>> {
    pieces.filter(|x: Seq<char>| x.len() > 0 && x != seq!['.'])
}

proof fn lemma_split_sum(a: Seq<char>, b: Seq<char>)
    ensures
        text::split(a + seq!['/'] + b, '/') == text::split(a, '/') + text::split(b, '/'),
{
    let x = text::split(a, '/');
    let y = text::split(b, '/');
    text::law_splitting(a, x, '/');
    text::law_splitting(b, y, '/');
    text::lemma_split_pieces(a, '/');
    text::lemma_split_pieces(b, '/');
    text::law_joining(x, y, seq!['/']);
    assert forall|i: int| 0 <= i < (x + y).len() implies !(#[trigger] (x + y)[i]).contains('/') by {
        if i < x.len() {
            assert((x + y)[i] == x[i]);
        } else {
            assert((x + y)[i] == y[i - x.len()]);
        }
    }
    text::law_splitting(a, x + y, '/');
}

proof fn lemma_named_behind(x: Seq<Seq<char>>, y: Seq<Seq<char>>, n: int)
    requires
        x.len() > 0,
        0 <= n <= y.len(),
    ensures
        named(x + y, x.len() + n) == named(x, x.len() as int) + naming(y.take(n)),
    decreases n,
{
    reveal(Seq::filter);
    if n == 0 {
        lemma_named_front(x, y, x.len() as int);
        assert(y.take(0).len() == 0);
        assert(named(x, x.len() as int) + naming(y.take(0)) =~= named(x, x.len() as int));
    } else {
        lemma_named_behind(x, y, n - 1);
        assert((x + y)[x.len() + n - 1] == y[n - 1]);
        assert(y.take(n).drop_last() =~= y.take(n - 1));
        assert(y.take(n).last() == y[n - 1]);
        assert(named(x + y, x.len() + n) =~= named(x, x.len() as int) + naming(y.take(n)));
    }
}

proof fn lemma_named_front(x: Seq<Seq<char>>, y: Seq<Seq<char>>, n: int)
    requires
        0 <= n <= x.len(),
    ensures
        named(x + y, n) == named(x, n),
    decreases n,
{
    if n > 0 {
        assert((x + y)[n - 1] == x[n - 1]);
        lemma_named_front(x, y, n - 1);
    }
}

/// What lies behind a slash adds its names to a path: empty pieces and `.` count for
/// nothing there, and every other piece is a component, `..` too. A text without a
/// slash is one component, if it is not empty.
pub proof fn law_components(a: Seq<char>, b: Seq<char>)
    ensures
        components(a + seq!['/'] + b) == components(a) + naming(text::split(b, '/')),
        !b.contains('/') && b.len() > 0 ==> components(b) == seq![b],
        b.len() == 0 ==> components(b) == Seq::<Seq<char>>::empty(),
{
    let x = text::split(a, '/');
    let y = text::split(b, '/');
    lemma_split_sum(a, b);
    text::lemma_split_pieces(a, '/');
    text::lemma_split_pieces(b, '/');
    lemma_named_behind(x, y, y.len() as int);
    assert(y.take(y.len() as int) =~= y);
    if !b.contains('/') {
        let one = seq![b];
        assert(text::joined(one, seq!['/']) =~= b) by {
            reveal_with_fuel(text::joined, 2);
        }
        text::law_splitting(b, one, '/');
        reveal_with_fuel(named, 2);
        if b.len() > 0 {
            assert(components(b) =~= seq![b]);
        } else {
            assert(components(b) =~= Seq::empty());
        }
    }
    if b.len() == 0 && b.contains('/') {
        assert(false);
    }
}

/// A path that a directory's path leads to is relative to it by what follows; the
/// directory itself by nothing. A path that it does not lead to keeps its own names.
pub proof fn law_relative_paths(absolute: bool, base: Seq<Seq<char>>, rest: Seq<Seq<char>>, p: Seq<char>)
    requires
        are_components(absolute, base + rest),
        are_components(absolute, base),
    ensures
        relative(rendered(absolute, base), rendered(absolute, base + rest)) == text::joined(
            rest,
            seq!['/'],
        ),
        is_absolute(p) != absolute || components(p).len() < base.len() || components(p).take(
            base.len() as int,
        ) != base ==> relative(rendered(absolute, base), p) == slashed(p),
{
    law_rendering_keeps_components(absolute, base);
    law_rendering_keeps_components(absolute, base + rest);
    assert((base + rest).take(base.len() as int) =~= base);
    assert((base + rest).skip(base.len() as int) =~= rest);
}

/// Joining goes below the base, by the names of the path; an absolute path stays as it
/// is.
pub proof fn law_joining_paths(base: Seq<char>, p: Seq<char>)
    ensures
        p.len() > 0 && p[0] == '/' ==> joined_path(base, p) == p,
        base.len() == 0 ==> joined_path(base, p) == p,
        base.len() > 0 && (p.len() == 0 || p[0] != '/') ==> {
            &&& components(joined_path(base, p)) == components(base) + naming(text::split(p, '/'))
            &&& is_absolute(joined_path(base, p)) == is_absolute(base)
            &&& joined_path(base, p).len() <= base.len() + p.len() + 1
        },
{
    if base.len() > 0 && !is_absolute(p) {
        if base.last() == '/' {
            let front = base.drop_last();
            assert(base =~= front + seq!['/'] + Seq::<char>::empty());
            assert(base + p =~= front + seq!['/'] + p);
            law_components(front, p);
            law_components(front, Seq::empty());
            let none = text::split(Seq::<char>::empty(), '/');
            let one = seq![Seq::<char>::empty()];
            assert(text::joined(one, seq!['/']) =~= Seq::<char>::empty()) by {
                reveal_with_fuel(text::joined, 2);
            }
            text::law_splitting(Seq::empty(), one, '/');
            assert(naming(none) =~= Seq::empty()) by {
                reveal(Seq::filter);
                reveal_with_fuel(Seq::filter, 2);
                assert(none.drop_last() =~= Seq::empty());
            }
            assert(components(base) =~= components(front));
            assert((base + p)[0] == base[0]);
        } else {
            law_components(base, p);
            assert((base + seq!['/'] + p)[0] == base[0]);
        }
    }
}

} // verus!
