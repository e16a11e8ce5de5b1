//! The package dependency graph.
//!
//! Every package declares dependencies in its manifest. An edge exists exactly
//! when a declared name is the manifest name of another workspace package;
//! external dependencies match nothing and drop out. `^task` walks the edges
//! upward, affected-detection walks them downward.

use vstd::prelude::*;

use crate::error::{ErrorView, TsrError};
use crate::text;
use crate::workspace;
use crate::workspace::{Package, PackageView};

verus! {

/// A workspace's packages and the edges between them, by position.
///
/// Package graphs need not be acyclic: construction never fails, and only
/// [`PackageGraph::topo_order`] reports a cycle.
#[derive(Debug)]
pub struct PackageGraph {
    packages: Vec<Package>,
    /// `deps[i]`: the packages that `i` depends on (upstream).
    deps: Vec<Vec<usize>>,
    /// `dependents[i]`: the packages that depend on `i` (downstream).
    dependents: Vec<Vec<usize>>,
}

// ---------------------------------------------------------------------------
// The model
// ---------------------------------------------------------------------------
/// The first package with this manifest name; `pkgs.len()` if there is none.
pub open spec fn name_index(pkgs: Seq<PackageView>, name: Seq<char>) -> int
    decreases pkgs.len(),
{
    if pkgs.len() == 0 {
        0
    } else if pkgs[0].name == Some(name) {
        0
    } else {
        1 + name_index(pkgs.drop_first(), name)
    }
}

/// The last package with this path; `-1` if there is none.
pub open spec fn rel_index(pkgs: Seq<PackageView>, rel: Seq<char>) -> int
    decreases pkgs.len(),
{
    if pkgs.len() == 0 {
        -1
    } else if pkgs.last().rel == rel {
        pkgs.len() - 1
    } else {
        rel_index(pkgs.drop_last(), rel)
    }
}

/// The edges of package `i` that its first `n` declared names make: to another
/// package, and each once.
pub open spec fn edges(pkgs: Seq<PackageView>, i: int, n: int) -> Seq<int>
    decreases n,
{
    if n <= 0 {
        Seq::empty()
    } else {
        let front = edges(pkgs, i, n - 1);
        let j = name_index(pkgs, pkgs[i].declared[n - 1]);
        if j < pkgs.len() && j != i && !front.contains(j) {
            front.push(j)
        } else {
            front
        }
    }
}

/// The packages that package `i` depends on.
pub open spec fn deps(pkgs: Seq<PackageView>, i: int) -> Seq<int> {
    edges(pkgs, i, pkgs[i].declared.len() as int)
}

/// Those of the first `n` packages that depend on package `j`.
pub open spec fn dependents(pkgs: Seq<PackageView>, j: int, n: int) -> Seq<int>
    decreases n,
{
    if n <= 0 {
        Seq::empty()
    } else {
        let front = dependents(pkgs, j, n - 1);
        if deps(pkgs, n - 1).contains(j) {
            front.push(n - 1)
        } else {
            front
        }
    }
}

/// The upstream edges of every package.
pub open spec fn upstream_edges(pkgs: Seq<PackageView>) -> Seq<Seq<int>> {
    Seq::new(pkgs.len(), |i: int| deps(pkgs, i))
}

/// The downstream edges of every package.
pub open spec fn downstream_edges(pkgs: Seq<PackageView>) -> Seq<Seq<int>> {
    Seq::new(pkgs.len(), |j: int| dependents(pkgs, j, pkgs.len() as int))
}

/// Whether `way` leads along edges.
pub open spec fn is_way(edges: Seq<Seq<int>>, way: Seq<int>) -> bool {
    &&& way.len() > 0
    &&& forall|k: int| 0 <= k < way.len() - 1 ==> edges[#[trigger] way[k]].contains(way[k + 1])
}

/// Whether a way leads from one of the roots to `x`.
pub open spec fn reaches(edges: Seq<Seq<int>>, roots: Seq<int>, x: int) -> bool {
    exists|way: Seq<int>| #[trigger]
        is_way(edges, way) && roots.contains(way[0]) && way.last() == x
}

/// Whether `v` is what the roots reach apart from themselves, in order.
pub open spec fn is_closure(edges: Seq<Seq<int>>, roots: Seq<int>, v: Seq<int>) -> bool {
    &&& forall|k: int, l: int| 0 <= k < l < v.len() ==> #[trigger] v[k] < #[trigger] v[l]
    &&& forall|x: int| #[trigger] v.contains(x) <==> reaches(edges, roots, x) && !roots.contains(x)
}

/// The edge lists, as model values.
pub open spec fn lists(v: Seq<Vec<usize>>) -> Seq<Seq<int>> {
    Seq::new(v.len(), |i: int| workspace::positions(v[i]@))
}

/// Every edge leads to a package.
pub open spec fn in_range(edges: Seq<Seq<int>>) -> bool {
    forall|i: int, k: int|
        0 <= i < edges.len() && 0 <= k < edges[i].len() ==> 0 <= #[trigger] edges[i][k]
            < edges.len()
}

impl View for PackageGraph {
    type V = Seq<PackageView>;

    closed spec fn view(&self) -> Seq<PackageView> {
        workspace::package_views(self.packages@)
    }
}

// ---------------------------------------------------------------------------
// Facts about edges
// ---------------------------------------------------------------------------
pub proof fn lemma_name_index(pkgs: Seq<PackageView>, name: Seq<char>)
    ensures
        0 <= name_index(pkgs, name) <= pkgs.len(),
        name_index(pkgs, name) < pkgs.len() ==> pkgs[name_index(pkgs, name)].name == Some(name),
        forall|i: int| 0 <= i < name_index(pkgs, name) ==> (#[trigger] pkgs[i]).name != Some(name),
    decreases pkgs.len(),
{
    if pkgs.len() > 0 && pkgs[0].name != Some(name) {
        lemma_name_index(pkgs.drop_first(), name);
        assert forall|i: int| 0 <= i < name_index(pkgs, name) implies (#[trigger] pkgs[i]).name
            != Some(name) by {
            if i > 0 {
                assert(pkgs.drop_first()[i - 1] == pkgs[i]);
            }
        }
    }
}

proof fn lemma_edges(pkgs: Seq<PackageView>, i: int, n: int)
    ensures
        forall|k: int|
            0 <= k < edges(pkgs, i, n).len() ==> 0 <= #[trigger] edges(pkgs, i, n)[k] < pkgs.len()
                && edges(pkgs, i, n)[k] != i,
        edges(pkgs, i, n).no_duplicates(),
    decreases n,
{
    if n > 0 {
        lemma_edges(pkgs, i, n - 1);
        lemma_name_index(pkgs, pkgs[i].declared[n - 1]);
    }
}

proof fn lemma_dependents(pkgs: Seq<PackageView>, j: int, n: int)
    ensures
        forall|k: int|
            0 <= k < dependents(pkgs, j, n).len() ==> 0 <= #[trigger] dependents(pkgs, j, n)[k] < n
                && deps(pkgs, dependents(pkgs, j, n)[k]).contains(j),
        forall|i: int|
            0 <= i < n && #[trigger] deps(pkgs, i).contains(j) ==> dependents(pkgs, j, n).contains(
                i,
            ),
    decreases n,
{
    if n > 0 {
        lemma_dependents(pkgs, j, n - 1);
        let front = dependents(pkgs, j, n - 1);
        let all = dependents(pkgs, j, n);
        assert forall|i: int| 0 <= i < n && #[trigger] deps(pkgs, i).contains(
            j,
        ) implies all.contains(i) by {
            if i < n - 1 {
                assert(front.contains(i));
                let k = choose|k: int| 0 <= k < front.len() && front[k] == i;
                assert(all[k] == i);
            } else {
                assert(all[front.len() as int] == i);
            }
        }
    }
}

proof fn lemma_edges_in_range(pkgs: Seq<PackageView>)
    ensures
        in_range(upstream_edges(pkgs)),
        in_range(downstream_edges(pkgs)),
{
    let up = upstream_edges(pkgs);
    assert forall|i: int, k: int|
        0 <= i < up.len() && 0 <= k < up[i].len() implies 0 <= #[trigger] up[i][k] < up.len() by {
        lemma_edges(pkgs, i, pkgs[i].declared.len() as int);
    }
    let down = downstream_edges(pkgs);
    assert forall|i: int, k: int|
        0 <= i < down.len() && 0 <= k < down[i].len() implies 0 <= #[trigger] down[i][k]
        < down.len() by {
        lemma_dependents(pkgs, i, pkgs.len() as int);
    }
}

pub proof fn lemma_way_extends(edges: Seq<Seq<int>>, roots: Seq<int>, a: int, b: int)
    requires
        reaches(edges, roots, a),
        edges[a].contains(b),
    ensures
        reaches(edges, roots, b),
{
    let way = choose|way: Seq<int>| #[trigger]
        is_way(edges, way) && roots.contains(way[0]) && way.last() == a;
    let longer = way.push(b);
    assert forall|k: int| 0 <= k < longer.len() - 1 implies edges[#[trigger] longer[k]].contains(
        longer[k + 1],
    ) by {
        if k < way.len() - 1 {
            assert(edges[way[k]].contains(way[k + 1]));
        }
    }
    assert(is_way(edges, longer));
    assert(longer[0] == way[0] && longer.last() == b);
}

/// What holds the roots and every edge of what it holds, holds all they reach.
proof fn lemma_closed_holds(edges: Seq<Seq<int>>, held: spec_fn(int) -> bool, way: Seq<int>, n: int)
    requires
        is_way(edges, way),
        held(way[0]),
        forall|a: int, b: int| held(a) && #[trigger] edges[a].contains(b) ==> held(b),
        0 <= n < way.len(),
    ensures
        held(way[n]),
    decreases n,
{
    if n > 0 {
        lemma_closed_holds(edges, held, way, n - 1);
        assert(edges[way[n - 1]].contains(way[n - 1 + 1]));
    }
}

/// Different numbers below `n` are at most `n` many.
proof fn lemma_distinct_bounded(v: Seq<usize>, n: nat)
    requires
        v.no_duplicates(),
        forall|k: int| 0 <= k < v.len() ==> #[trigger] v[k] < n,
    ensures
        v.len() <= n,
    decreases n,
{
    if v.len() > 0 {
        if n == 0 {
            assert(v[0] < n);
        } else if exists|k: int| 0 <= k < v.len() && v[k] == n - 1 {
            let k = choose|k: int| 0 <= k < v.len() && v[k] == n - 1;
            let rest = v.remove(k);
            assert forall|l: int| 0 <= l < rest.len() implies #[trigger] rest[l] < n - 1 by {
                if l < k {
                    assert(v[l] < n && v[l] != v[k]);
                } else {
                    assert(v[l + 1] < n && v[l + 1] != v[k]);
                }
            }
            lemma_distinct_bounded(rest, (n - 1) as nat);
        } else {
            assert forall|l: int| 0 <= l < v.len() implies #[trigger] v[l] < n - 1 by {
                assert(v[l] < n);
            }
            lemma_distinct_bounded(v, (n - 1) as nat);
        }
    }
}

// ---------------------------------------------------------------------------
// Lists of positions
// ---------------------------------------------------------------------------
/// Whether `x` is in the list.
pub(crate) fn listed(v: &Vec<usize>, x: usize) -> (r: bool)
    ensures
        r == v@.contains(x),
        r == workspace::positions(v@).contains(x as int),
{
    let ghost p = workspace::positions(v@);
    let mut k: usize = 0;
    while k < v.len()
        invariant
            k <= v.len(),
            p == workspace::positions(v@),
            forall|l: int| 0 <= l < k ==> #[trigger] v@[l] != x,
            forall|l: int| 0 <= l < k ==> #[trigger] p[l] != x,
        decreases v.len() - k,
    {
        if v[k] == x {
            assert(p[k as int] == x);
            return true;
        }
        k += 1;
    }
    assert forall|l: int| 0 <= l < v.len() implies #[trigger] v@[l] != x by {}
    false
}

/// The numbers in order, where none occurs twice.
pub(crate) fn sort_positions(v: Vec<usize>) -> (r: Vec<usize>)
    requires
        v@.no_duplicates(),
    ensures
        forall|k: int, l: int| 0 <= k < l < r.len() ==> #[trigger] r@[k] < #[trigger] r@[l],
        forall|x: usize| #[trigger] r@.contains(x) <==> v@.contains(x),
{
    let mut out: Vec<usize> = Vec::new();
    let mut i: usize = 0;
    while i < v.len()
        invariant
            i <= v.len(),
            v@.no_duplicates(),
            forall|k: int, l: int| 0 <= k < l < out.len() ==> #[trigger] out@[k] < #[trigger] out@[l],
            forall|x: usize| #[trigger] out@.contains(x) <==> v@.take(i as int).contains(x),
        decreases v.len() - i,
    {
        let x = v[i];
        let ghost before = out@;
        proof {
            if before.contains(x) {
                assert(v@.take(i as int).contains(x));
                let k = choose|k: int| 0 <= k < i && v@.take(i as int)[k] == x;
                assert(v@[k] == v@[i as int]);
            }
        }
        let mut at: usize = 0;
        while at < out.len() && out[at] < x
            invariant
                at <= out.len(),
                before == out@,
                forall|k: int| 0 <= k < at ==> #[trigger] out@[k] < x,
            decreases out.len() - at,
        {
            at += 1;
        }
        out.insert(at, x);
        proof {
            assert(out@ =~= before.insert(at as int, x));
            if at < before.len() {
                assert(before[at as int] != x) by {
                    if before[at as int] == x {
                        assert(before.contains(x));
                    }
                }
            }
            assert forall|k: int, l: int| 0 <= k < l < out.len() implies #[trigger] out@[k]
                < #[trigger] out@[l] by {
                if k < at && l > at {
                    assert(before[k] < before[l - 1]);
                } else if k == at {
                    assert(at == l - 1 || before[at as int] < before[l - 1]);
                } else if k > at {
                    assert(before[k - 1] < before[l - 1]);
                }
            }
            assert forall|y: usize| #[trigger] out@.contains(y) <==> v@.take(i + 1).contains(
                y,
            ) by {
                let now = v@.take(i + 1);
                assert(now =~= v@.take(i as int).push(x));
                if out@.contains(y) {
                    let k = choose|k: int| 0 <= k < out@.len() && out@[k] == y;
                    if k < at {
                        assert(before[k] == y);
                        assert(before.contains(y));
                    } else if k > at {
                        assert(before[k - 1] == y);
                        assert(before.contains(y));
                    }
                    if before.contains(y) {
                        let m = choose|m: int| 0 <= m < i && v@.take(i as int)[m] == y;
                        assert(now[m] == y);
                    } else {
                        assert(now[i as int] == y);
                    }
                }
                if now.contains(y) {
                    let m = choose|m: int| 0 <= m < now.len() && now[m] == y;
                    if m < i {
                        assert(v@.take(i as int)[m] == y);
                        assert(before.contains(y));
                        let k = choose|k: int| 0 <= k < before.len() && before[k] == y;
                        if k < at {
                            assert(out@[k] == y);
                        } else {
                            assert(out@[k + 1] == y);
                        }
                    } else {
                        assert(out@[at as int] == y);
                    }
                }
            }
        }
        i += 1;
    }
    assert(v@.take(i as int) =~= v@);
    out
}

/// What the roots reach along the edges, apart from themselves, in order.
fn closure(roots: &Vec<usize>, edges: &Vec<Vec<usize>>) -> (r: Vec<usize>)
    requires
        in_range(lists(edges@)),
        forall|k: int| 0 <= k < roots.len() ==> (#[trigger] roots@[k]) < edges.len(),
    ensures
        is_closure(lists(edges@), workspace::positions(roots@), workspace::positions(r@)),
        forall|k: int| 0 <= k < r.len() ==> (#[trigger] r@[k]) < edges.len(),
{
    let ghost e = lists(edges@);
    let ghost rs = workspace::positions(roots@);
    let mut queue: Vec<usize> = Vec::new();
    let mut out: Vec<usize> = Vec::new();
    let mut q: usize = 0;
    while q < roots.len()
        invariant
            q <= roots.len(),
            queue@ == roots@.take(q as int),
        decreases roots.len() - q,
    {
        queue.push(roots[q]);
        q += 1;
    }
    assert(queue@ =~= roots@);
    proof {
        assert forall|x: int| rs.contains(x) implies reaches(e, rs, x) by {
            let way = seq![x];
            assert(is_way(e, way) && way[0] == x && way.last() == x);
        }
        assert forall|k: int| 0 <= k < queue.len() implies reaches(
            e,
            rs,
            (#[trigger] queue@[k]) as int,
        ) by {
            assert(rs[k] == roots@[k]);
            assert(rs.contains(roots@[k] as int));
        }
    }
    while queue.len() > 0
        invariant
            e == lists(edges@),
            rs == workspace::positions(roots@),
            in_range(e),
            out@.no_duplicates(),
            out.len() <= edges.len(),
            forall|k: int| 0 <= k < roots.len() ==> (#[trigger] roots@[k]) < edges.len(),
            forall|k: int| 0 <= k < queue.len() ==> (#[trigger] queue@[k]) < edges.len(),
            forall|k: int| 0 <= k < out.len() ==> (#[trigger] out@[k]) < edges.len(),
            forall|k: int| 0 <= k < out.len() ==> !roots@.contains(#[trigger] out@[k]),
            forall|k: int|
                0 <= k < queue.len() ==> reaches(e, rs, (#[trigger] queue@[k]) as int),
            forall|k: int| 0 <= k < out.len() ==> reaches(e, rs, (#[trigger] out@[k]) as int),
            // What was found and is not walked from yet is in the queue.
            forall|a: usize, b: int|
                (roots@.contains(a) || out@.contains(a)) && !queue@.contains(a)
                    && #[trigger] e[a as int].contains(b) ==> roots@.contains(b as usize)
                    || out@.contains(b as usize),
        decreases edges.len() - out.len(), queue.len(),
    {
        let ghost q0 = queue@;
        let i = queue.pop().unwrap();
        let ghost q1 = queue@;
        let ghost o1 = out@;
        assert(q0 =~= q1.push(i));
        assert(q0[q0.len() - 1] == i);
        assert(reaches(e, rs, i as int));
        let mut k: usize = 0;
        while k < edges[i].len()
            invariant
                i < edges.len(),
                k <= edges@[i as int].len(),
                e == lists(edges@),
                rs == workspace::positions(roots@),
                in_range(e),
                reaches(e, rs, i as int),
                out@.no_duplicates(),
                forall|l: int| 0 <= l < queue.len() ==> (#[trigger] queue@[l]) < edges.len(),
                forall|l: int| 0 <= l < out.len() ==> (#[trigger] out@[l]) < edges.len(),
                forall|l: int| 0 <= l < out.len() ==> !roots@.contains(#[trigger] out@[l]),
                forall|l: int|
                    0 <= l < queue.len() ==> reaches(e, rs, (#[trigger] queue@[l]) as int),
                forall|l: int| 0 <= l < out.len() ==> reaches(e, rs, (#[trigger] out@[l]) as int),
                o1.len() <= out.len(),
                out.len() == o1.len() ==> queue@ == q1,
                forall|x: usize| o1.contains(x) ==> #[trigger] out@.contains(x),
                forall|x: usize| q1.contains(x) ==> #[trigger] queue@.contains(x),
                forall|x: usize| #[trigger]
                    out@.contains(x) && !o1.contains(x) ==> queue@.contains(x),
                forall|l: int|
                    0 <= l < k ==> roots@.contains(#[trigger] edges@[i as int]@[l])
                        || out@.contains(edges@[i as int]@[l]),
            decreases edges@[i as int].len() - k,
        {
            let next = edges[i][k];
            let ghost o2 = out@;
            let ghost q2 = queue@;
            proof {
                assert(e[i as int][k as int] == next);
                assert(0 <= e[i as int][k as int] < e.len());
                assert(e[i as int].contains(next as int));
            }
            if !listed(roots, next) && !listed(&out, next) {
                out.push(next);
                queue.push(next);
                proof {
                    lemma_way_extends(e, rs, i as int, next as int);
                    assert(out@[o2.len() as int] == next);
                    assert(queue@[q2.len() as int] == next);
                    assert forall|x: usize| o1.contains(x) implies #[trigger] out@.contains(x) by {
                        assert(o2.contains(x));
                        let m = choose|m: int| 0 <= m < o2.len() && o2[m] == x;
                        assert(out@[m] == x);
                    }
                    assert forall|x: usize| q1.contains(x) implies #[trigger] queue@.contains(
                        x,
                    ) by {
                        assert(q2.contains(x));
                        let m = choose|m: int| 0 <= m < q2.len() && q2[m] == x;
                        assert(queue@[m] == x);
                    }
                    assert forall|x: usize| #[trigger]
                        out@.contains(x) && !o1.contains(x) implies queue@.contains(x) by {
                        if x != next {
                            let m = choose|m: int| 0 <= m < out@.len() && out@[m] == x;
                            assert(o2[m] == x);
                            assert(o2.contains(x));
                            let w = choose|w: int| 0 <= w < q2.len() && q2[w] == x;
                            assert(queue@[w] == x);
                        }
                    }
                    assert forall|l: int| 0 <= l < k + 1 implies roots@.contains(
                        #[trigger] edges@[i as int]@[l],
                    ) || out@.contains(edges@[i as int]@[l]) by {
                        if l < k {
                            let y = edges@[i as int]@[l];
                            if !roots@.contains(y) {
                                assert(o2.contains(y));
                                let m = choose|m: int| 0 <= m < o2.len() && o2[m] == y;
                                assert(out@[m] == y);
                            }
                        }
                    }
                }
            }
            k += 1;
        }
        proof {
            lemma_distinct_bounded(out@, edges@.len());
            assert forall|a: usize, b: int|
                (roots@.contains(a) || out@.contains(a)) && !queue@.contains(a)
                    && #[trigger] e[a as int].contains(b) implies roots@.contains(b as usize)
                || out@.contains(b as usize) by {
                if a == i {
                    let l = choose|l: int| 0 <= l < e[i as int].len() && e[i as int][l] == b;
                    assert(edges@[i as int]@[l] == b);
                } else {
                    assert(roots@.contains(a) || o1.contains(a));
                    if q0.contains(a) {
                        let m = choose|m: int| 0 <= m < q0.len() && q0[m] == a;
                        assert(q1[m] == a);
                        assert(q1.contains(a));
                    }
                    assert(!q0.contains(a));
                    assert(roots@.contains(b as usize) || o1.contains(b as usize));
                }
            }
        }
    }
    let ghost found = out@;
    let r = sort_positions(out);
    proof {
        let rv = workspace::positions(r@);
        let held = |x: int| 0 <= x < e.len() && (roots@.contains(x as usize) || found.contains(x as usize));
        assert forall|a: int, b: int| held(a) && #[trigger] e[a].contains(b) implies held(b) by {
            let k = choose|k: int| 0 <= k < e[a].len() && e[a][k] == b;
            assert(0 <= e[a][k] < e.len());
            assert(e[(a as usize) as int].contains(b));
        }
        assert forall|x: int| #[trigger] rv.contains(x) <==> reaches(e, rs, x) && !rs.contains(
            x,
        ) by {
            if rv.contains(x) {
                let k = choose|k: int| 0 <= k < rv.len() && rv[k] == x;
                assert(r@[k] == x as usize);
                assert(r@.contains(x as usize));
                assert(found.contains(x as usize));
                let m = choose|m: int| 0 <= m < found.len() && found[m] == x as usize;
                assert(reaches(e, rs, found[m] as int));
                if rs.contains(x) {
                    let w = choose|w: int| 0 <= w < rs.len() && rs[w] == x;
                    assert(roots@[w] == x as usize);
                    assert(roots@.contains(found[m]));
                }
            }
            if reaches(e, rs, x) && !rs.contains(x) {
                let way = choose|way: Seq<int>| #[trigger]
                    is_way(e, way) && rs.contains(way[0]) && way.last() == x;
                let w = choose|w: int| 0 <= w < rs.len() && rs[w] == way[0];
                assert(roots@[w] == way[0] as usize);
                assert(roots@.contains(way[0] as usize));
                assert(held(way[0]));
                lemma_closed_holds(e, held, way, way.len() - 1);
                assert(held(x));
                if roots@.contains(x as usize) {
                    let m = choose|m: int| 0 <= m < roots@.len() && roots@[m] == x as usize;
                    assert(rs[m] == x);
                }
                assert(r@.contains(x as usize));
                let m = choose|m: int| 0 <= m < r@.len() && r@[m] == x as usize;
                assert(rv[m] == x);
            }
        }
        assert forall|k: int| 0 <= k < r.len() implies (#[trigger] r@[k]) < edges.len() by {
            assert(r@.contains(r@[k]));
            let m = choose|m: int| 0 <= m < found.len() && found[m] == r@[k];
        }
        assert(is_closure(e, rs, rv)) by {
            assert forall|k: int, l: int| 0 <= k < l < rv.len() implies #[trigger] rv[k]
                < #[trigger] rv[l] by {
                assert(r@[k] < r@[l]);
            }
        }
    }
    r
}

// ---------------------------------------------------------------------------
// Order
// ---------------------------------------------------------------------------
/// Whether everything that package `i` depends on is done.
pub open spec fn is_ready(edges: Seq<Seq<int>>, done: Seq<int>, i: int) -> bool {
    forall|k: int| 0 <= k < edges[i].len() ==> done.contains(#[trigger] edges[i][k])
}

/// Those of the first `n` remaining packages that are ready, or are not.
pub open spec fn part(
    edges: Seq<Seq<int>>,
    done: Seq<int>,
    remaining: Seq<int>,
    n: int,
    ready: bool,
) -> Seq<int>
    decreases n,
{
    if n <= 0 {
        Seq::empty()
    } else {
        let front = part(edges, done, remaining, n - 1, ready);
        if is_ready(edges, done, remaining[n - 1]) == ready {
            front.push(remaining[n - 1])
        } else {
            front
        }
    }
}

pub proof fn lemma_part_len(edges: Seq<Seq<int>>, done: Seq<int>, remaining: Seq<int>, n: int)
    ensures
        n >= 0 ==> part(edges, done, remaining, n, true).len() + part(
            edges,
            done,
            remaining,
            n,
            false,
        ).len() == n,
    decreases n,
{
    if n > 0 {
        lemma_part_len(edges, done, remaining, n - 1);
    }
}

/// The packages in dependency order, round by round: those that are ready come
/// next. When none is, the packages that are left are the answer.
pub open spec fn rounds(edges: Seq<Seq<int>>, remaining: Seq<int>, done: Seq<int>) -> Result<
    Seq<int>,
    Seq<int>,
>
    decreases remaining.len(),
{
    let n = remaining.len() as int;
    let ready = part(edges, done, remaining, n, true);
    let blocked = part(edges, done, remaining, n, false);
    proof {
        lemma_part_len(edges, done, remaining, n);
    }
    if remaining.len() == 0 {
        Ok(done)
    } else if ready.len() == 0 {
        Err(blocked)
    } else {
        rounds(edges, blocked, done + ready)
    }
}

/// The numbers below `n`.
pub open spec fn below(n: nat) -> Seq<int> {
    Seq::new(n, |i: int| i)
}

/// The paths of some packages.
pub open spec fn rel_texts(pkgs: Seq<PackageView>, v: Seq<int>) -> Seq<Seq<char>> {
    Seq::new(v.len(), |k: int| pkgs[v[k]].rel)
}

/// All packages in dependency order; a cycle is an error that names the packages
/// that no order can place.
pub open spec fn topo(pkgs: Seq<PackageView>) -> Result<Seq<int>, ErrorView> {
    match rounds(upstream_edges(pkgs), below(pkgs.len()), Seq::empty()) {
        Ok(v) => Ok(v),
        Err(blocked) => Err(
            ErrorView::Runtime(
                "package dependency cycle among: "@ + text::joined(
                    rel_texts(pkgs, blocked),
                    ", "@,
                ),
            ),
        ),
    }
}

/// Whether everything that package `i` depends on is done.
fn ready(deps: &Vec<usize>, done: &Vec<usize>) -> (r: bool)
    ensures
        r == forall|k: int|
            0 <= k < deps.len() ==> workspace::positions(done@).contains(
                #[trigger] workspace::positions(deps@)[k],
            ),
{
    let ghost d = workspace::positions(deps@);
    let mut k: usize = 0;
    while k < deps.len()
        invariant
            k <= deps.len(),
            d == workspace::positions(deps@),
            forall|l: int| 0 <= l < k ==> workspace::positions(done@).contains(#[trigger] d[l]),
        decreases deps.len() - k,
    {
        if !listed(done, deps[k]) {
            assert(!workspace::positions(done@).contains(d[k as int]));
            return false;
        }
        assert(workspace::positions(done@).contains(d[k as int]));
        k += 1;
    }
    true
}

impl PackageGraph {
    /// The edges are those that the packages declare.
    #[verifier::type_invariant]
    spec fn inv(&self) -> bool {
        &&& lists(self.deps@) == upstream_edges(self@)
        &&& lists(self.dependents@) == downstream_edges(self@)
    }

    /// Build the graph over a set of packages.
    pub fn from_packages(packages: Vec<Package>) -> (g: PackageGraph)
        ensures
            g@ == workspace::package_views(packages@),
    {
        let ghost pkgs = workspace::package_views(packages@);
        let n = packages.len();
        let mut deps: Vec<Vec<usize>> = Vec::new();
        let mut i: usize = 0;
        while i < n
            invariant
                i <= n,
                n == packages.len(),
                pkgs == workspace::package_views(packages@),
                deps.len() == i,
                forall|k: int|
                    0 <= k < i ==> workspace::positions((#[trigger] deps@[k])@)
                        == crate::pkggraph::deps(pkgs, k),
            decreases n - i,
        {
            deps.push(edges_of(&packages, i));
            i += 1;
        }
        let mut dependents: Vec<Vec<usize>> = Vec::new();
        let mut j: usize = 0;
        while j < n
            invariant
                j <= n,
                n == packages.len(),
                n == deps.len(),
                pkgs == workspace::package_views(packages@),
                forall|k: int|
                    0 <= k < n ==> workspace::positions((#[trigger] deps@[k])@)
                        == crate::pkggraph::deps(pkgs, k),
                dependents.len() == j,
                forall|k: int|
                    0 <= k < j ==> workspace::positions((#[trigger] dependents@[k])@)
                        == crate::pkggraph::dependents(pkgs, k, n as int),
            decreases n - j,
        {
            let mut list: Vec<usize> = Vec::new();
            let mut k: usize = 0;
            assert(workspace::positions(list@) =~= Seq::<int>::empty());
            while k < n
                invariant
                    k <= n,
                    n == deps.len(),
                    forall|l: int|
                        0 <= l < n ==> workspace::positions((#[trigger] deps@[l])@)
                            == crate::pkggraph::deps(pkgs, l),
                    workspace::positions(list@) == crate::pkggraph::dependents(
                        pkgs,
                        j as int,
                        k as int,
                    ),
                decreases n - k,
            {
                let ghost before = workspace::positions(list@);
                if listed(&deps[k], j) {
                    list.push(k);
                    assert(workspace::positions(list@) =~= before.push(k as int));
                }
                k += 1;
            }
            dependents.push(list);
            j += 1;
        }
        assert(lists(deps@) =~= upstream_edges(pkgs));
        assert(lists(dependents@) =~= downstream_edges(pkgs));
        PackageGraph { packages, deps, dependents }
    }

    /// Every package, ordered by relative path.
    pub fn packages(&self) -> (r: &Vec<Package>)
        ensures
            workspace::package_views(r@) == self@,
    {
        &self.packages
    }

    /// Look a package up the way `packages` entries match: by relative path
    /// first, then by manifest name.
    pub fn index_of(&self, key: &str) -> (r: Option<usize>)
        ensures
            match r {
                Some(i) => i < self@.len() && i == if rel_index(self@, key@) >= 0 {
                    rel_index(self@, key@)
                } else {
                    name_index(self@, key@)
                },
                None => rel_index(self@, key@) < 0 && name_index(self@, key@) == self@.len(),
            },
    {
        let ghost pkgs = self@;
        let mut n: usize = self.packages.len();
        assert(pkgs.take(n as int) =~= pkgs);
        while n > 0
            invariant
                n <= self.packages.len(),
                pkgs == workspace::package_views(self.packages@),
                pkgs == self@,
                rel_index(pkgs, key@) == rel_index(pkgs.take(n as int), key@),
            decreases n,
        {
            assert(pkgs.take(n as int).last() == self.packages@[n - 1]@);
            if text::same(self.packages[n - 1].rel.as_str(), key) {
                return Some(n - 1);
            }
            assert(pkgs.take(n as int).drop_last() =~= pkgs.take(n - 1));
            n -= 1;
        }
        let i = first_named(&self.packages, key);
        if i < self.packages.len() {
            Some(i)
        } else {
            None
        }
    }

    /// The package at a position.
    pub fn get(&self, index: usize) -> (r: &Package)
        requires
            index < self@.len(),
        ensures
            r@ == self@[index as int],
    {
        &self.packages[index]
    }

    /// The packages that a package depends on: what `^task` runs first.
    pub fn deps_of(&self, index: usize) -> (r: &Vec<usize>)
        requires
            index < self@.len(),
        ensures
            workspace::positions(r@) == crate::pkggraph::deps(self@, index as int),
            forall|k: int| 0 <= k < r.len() ==> (#[trigger] r@[k]) < self@.len(),
    {
        proof {
            use_type_invariant(self);
            assert(lists(self.deps@)[index as int] == upstream_edges(self@)[index as int]);
            lemma_edges(self@, index as int, self@[index as int].declared.len() as int);
            let r = self.deps@[index as int];
            assert(lists(self.deps@).len() == self.deps@.len());
            assert(upstream_edges(self@)[index as int] == crate::pkggraph::deps(
                self@,
                index as int,
            ));
            assert(workspace::positions(r@) == crate::pkggraph::deps(self@, index as int));
            assert(workspace::positions(r@).len() == r@.len());
            assert forall|k: int| 0 <= k < r.len() implies (#[trigger] r@[k]) < self@.len() by {
                assert(workspace::positions(r@)[k] == r@[k]);
                assert(0 <= crate::pkggraph::deps(self@, index as int)[k] < self@.len());
            }
        }
        &self.deps[index]
    }

    /// The packages that depend on a package: what a change to it affects.
    pub fn dependents_of(&self, index: usize) -> (r: &Vec<usize>)
        requires
            index < self@.len(),
        ensures
            workspace::positions(r@) == crate::pkggraph::dependents(
                self@,
                index as int,
                self@.len() as int,
            ),
            forall|k: int| 0 <= k < r.len() ==> (#[trigger] r@[k]) < self@.len(),
    {
        proof {
            use_type_invariant(self);
            assert(lists(self.dependents@)[index as int] == downstream_edges(self@)[index as int]);
            lemma_dependents(self@, index as int, self@.len() as int);
            let r = self.dependents@[index as int];
            assert(lists(self.dependents@).len() == self.dependents@.len());
            assert(downstream_edges(self@)[index as int] == crate::pkggraph::dependents(
                self@,
                index as int,
                self@.len() as int,
            ));
            assert(workspace::positions(r@).len() == r@.len());
            assert forall|k: int| 0 <= k < r.len() implies (#[trigger] r@[k]) < self@.len() by {
                assert(workspace::positions(r@)[k] == r@[k]);
                assert(0 <= crate::pkggraph::dependents(
                    self@,
                    index as int,
                    self@.len() as int,
                )[k] < self@.len());
            }
        }
        &self.dependents[index]
    }

    /// Every package upstream of the roots, never a root itself, even where a
    /// cycle leads back to one: `^task` means "my dependencies", never "me".
    pub fn upstream_closure(&self, roots: &Vec<usize>) -> (r: Vec<usize>)
        requires
            forall|k: int| 0 <= k < roots.len() ==> (#[trigger] roots@[k]) < self@.len(),
        ensures
            is_closure(
                upstream_edges(self@),
                workspace::positions(roots@),
                workspace::positions(r@),
            ),
            forall|k: int| 0 <= k < r.len() ==> (#[trigger] r@[k]) < self@.len(),
    {
        proof {
            use_type_invariant(self);
            lemma_edges_in_range(self@);
            assert(lists(self.deps@).len() == self.deps@.len());
        }
        closure(roots, &self.deps)
    }

    /// Every package downstream of the roots, never a root itself: what a change
    /// to the roots affects.
    pub fn downstream_closure(&self, roots: &Vec<usize>) -> (r: Vec<usize>)
        requires
            forall|k: int| 0 <= k < roots.len() ==> (#[trigger] roots@[k]) < self@.len(),
        ensures
            is_closure(
                downstream_edges(self@),
                workspace::positions(roots@),
                workspace::positions(r@),
            ),
            forall|k: int| 0 <= k < r.len() ==> (#[trigger] r@[k]) < self@.len(),
    {
        proof {
            use_type_invariant(self);
            lemma_edges_in_range(self@);
            assert(lists(self.dependents@).len() == self.dependents@.len());
        }
        closure(roots, &self.dependents)
    }

    /// All packages in dependency order: every package behind those it depends
    /// on, ties by position. A cycle is an error that names the packages
    /// involved.
    pub fn topo_order(&self) -> (r: Result<Vec<usize>, TsrError>)
        ensures
            match r {
                Ok(v) => topo(self@) == Ok::<Seq<int>, ErrorView>(workspace::positions(v@))
                    && forall|k: int| 0 <= k < v.len() ==> (#[trigger] v@[k]) < self@.len(),
                Err(e) => topo(self@) == Err::<Seq<int>, ErrorView>(e@),
            },
    {
        proof {
            use_type_invariant(self);
        }
        let ghost e = upstream_edges(self@);
        let n = self.packages.len();
        assert(lists(self.deps@).len() == self.deps@.len());
        let mut remaining: Vec<usize> = Vec::new();
        let mut i: usize = 0;
        while i < n
            invariant
                i <= n,
                remaining.len() == i,
                forall|k: int| 0 <= k < i ==> (#[trigger] remaining@[k]) == k,
            decreases n - i,
        {
            remaining.push(i);
            i += 1;
        }
        let mut order: Vec<usize> = Vec::new();
        proof {
            assert(workspace::positions(remaining@) =~= below(self@.len()));
            assert(workspace::positions(order@) =~= Seq::<int>::empty());
        }
        while remaining.len() > 0
            invariant
                e == upstream_edges(self@),
                e == lists(self.deps@),
                n == self.packages.len(),
                n == self.deps.len(),
                n == self@.len(),
                self@ == workspace::package_views(self.packages@),
                forall|k: int| 0 <= k < remaining.len() ==> (#[trigger] remaining@[k]) < n,
                forall|k: int| 0 <= k < order.len() ==> (#[trigger] order@[k]) < n,
                rounds(e, below(self@.len()), Seq::empty()) == rounds(
                    e,
                    workspace::positions(remaining@),
                    workspace::positions(order@),
                ),
            decreases remaining.len(),
        {
            let ghost rem = workspace::positions(remaining@);
            let ghost done = workspace::positions(order@);
            let mut next: Vec<usize> = Vec::new();
            let mut blocked: Vec<usize> = Vec::new();
            let mut k: usize = 0;
            assert(workspace::positions(next@) =~= Seq::<int>::empty());
            assert(workspace::positions(blocked@) =~= Seq::<int>::empty());
            while k < remaining.len()
                invariant
                    k <= remaining.len(),
                    e == lists(self.deps@),
                    n == self.deps.len(),
                    rem == workspace::positions(remaining@),
                    done == workspace::positions(order@),
                    forall|l: int| 0 <= l < remaining.len() ==> (#[trigger] remaining@[l]) < n,
                    forall|l: int| 0 <= l < next.len() ==> (#[trigger] next@[l]) < n,
                    forall|l: int| 0 <= l < blocked.len() ==> (#[trigger] blocked@[l]) < n,
                    workspace::positions(next@) == part(e, done, rem, k as int, true),
                    workspace::positions(blocked@) == part(e, done, rem, k as int, false),
                    next.len() + blocked.len() == k,
                decreases remaining.len() - k,
            {
                let i = remaining[k];
                let ghost a = workspace::positions(next@);
                let ghost b = workspace::positions(blocked@);
                assert(e[i as int] == workspace::positions(self.deps@[i as int]@));
                assert(rem[k as int] == i);
                if ready(&self.deps[i], &order) {
                    next.push(i);
                    assert(is_ready(e, done, i as int));
                    assert(workspace::positions(next@) =~= a.push(i as int));
                } else {
                    blocked.push(i);
                    assert(!is_ready(e, done, i as int));
                    assert(workspace::positions(blocked@) =~= b.push(i as int));
                }
                k += 1;
            }
            assert(rem.len() == remaining.len());
            if next.len() == 0 {
                assert(workspace::positions(next@).len() == 0);
                let rels = self.rels(&blocked);
                let list = text::join(&rels, ", ");
                return Err(
                    TsrError::Runtime(
                        text::join2("package dependency cycle among: ", list.as_str()),
                    ),
                );
            }
            assert(workspace::positions(next@).len() == next.len());
            let ghost more = workspace::positions(next@);
            let mut m: usize = 0;
            assert(done + more.take(0) =~= done);
            while m < next.len()
                invariant
                    m <= next.len(),
                    more == workspace::positions(next@),
                    forall|l: int| 0 <= l < next.len() ==> (#[trigger] next@[l]) < n,
                    forall|l: int| 0 <= l < order.len() ==> (#[trigger] order@[l]) < n,
                    workspace::positions(order@) == done + more.take(m as int),
                decreases next.len() - m,
            {
                let ghost so_far = workspace::positions(order@);
                order.push(next[m]);
                assert(workspace::positions(order@) =~= so_far.push(more[m as int]));
                assert(workspace::positions(order@) =~= done + more.take(m + 1));
                m += 1;
            }
            assert(more.take(m as int) =~= more);
            remaining = blocked;
        }
        assert(workspace::positions(remaining@).len() == 0);
        Ok(order)
    }

    /// The relative paths of some packages.
    pub fn rels(&self, indices: &Vec<usize>) -> (r: Vec<String>)
        requires
            forall|k: int| 0 <= k < indices.len() ==> (#[trigger] indices@[k]) < self@.len(),
        ensures
            text::texts(r@) == rel_texts(self@, workspace::positions(indices@)),
    {
        let ghost v = workspace::positions(indices@);
        let mut out: Vec<String> = Vec::new();
        let mut k: usize = 0;
        while k < indices.len()
            invariant
                k <= indices.len(),
                self@ == workspace::package_views(self.packages@),
                v == workspace::positions(indices@),
                forall|l: int| 0 <= l < indices.len() ==> (#[trigger] indices@[l]) < self@.len(),
                out.len() == k,
                forall|l: int| 0 <= l < k ==> (#[trigger] out@[l])@ == self@[v[l]].rel,
            decreases indices.len() - k,
        {
            out.push(self.packages[indices[k]].rel.clone());
            k += 1;
        }
        assert(text::texts(out@) =~= rel_texts(self@, v));
        out
    }
}

/// The first package with this manifest name, or the number of packages.
fn first_named(packages: &Vec<Package>, name: &str) -> (r: usize)
    ensures
        r == name_index(workspace::package_views(packages@), name@),
        r <= packages.len(),
{
    let ghost pkgs = workspace::package_views(packages@);
    let mut i: usize = 0;
    assert(pkgs.skip(0) =~= pkgs);
    while i < packages.len()
        invariant
            i <= packages.len(),
            pkgs == workspace::package_views(packages@),
            name_index(pkgs, name@) == i + name_index(pkgs.skip(i as int), name@),
        decreases packages.len() - i,
    {
        assert(pkgs.skip(i as int)[0] == packages@[i as int]@);
        if let Some(n) = &packages[i].name {
            if text::same(n.as_str(), name) {
                return i;
            }
        }
        assert(pkgs.skip(i as int).drop_first() =~= pkgs.skip(i + 1));
        i += 1;
    }
    i
}

/// The packages that a package depends on.
fn edges_of(packages: &Vec<Package>, i: usize) -> (r: Vec<usize>)
    requires
        i < packages.len(),
    ensures
        workspace::positions(r@) == deps(workspace::package_views(packages@), i as int),
{
    let ghost pkgs = workspace::package_views(packages@);
    let mut out: Vec<usize> = Vec::new();
    let mut k: usize = 0;
    assert(workspace::positions(out@) =~= Seq::<int>::empty());
    while k < packages[i].declared.len()
        invariant
            i < packages.len(),
            k <= packages@[i as int].declared.len(),
            pkgs == workspace::package_views(packages@),
            workspace::positions(out@) == edges(pkgs, i as int, k as int),
        decreases packages@[i as int].declared.len() - k,
    {
        let ghost before = workspace::positions(out@);
        assert(pkgs[i as int].declared[k as int] == packages@[i as int].declared@[k as int]@);
        let j = first_named(packages, packages[i].declared[k].as_str());
        if j < packages.len() && j != i && !listed(&out, j) {
            out.push(j);
            assert(workspace::positions(out@) =~= before.push(j as int));
        }
        k += 1;
    }
    out
}

// ---------------------------------------------------------------------------
// Laws
// ---------------------------------------------------------------------------
/// An edge exists exactly when a declared name is the manifest name of another
/// package (of the first one with that name).
pub proof fn law_edge_rule(pkgs: Seq<PackageView>, i: int, j: int)
    requires
        0 <= i < pkgs.len(),
    ensures
        deps(pkgs, i).contains(j) <==> j != i && 0 <= j < pkgs.len() && exists|d: int|
            0 <= d < pkgs[i].declared.len() && name_index(
                pkgs,
                #[trigger] pkgs[i].declared[d],
            ) == j,
{
    lemma_edge_rule(pkgs, i, j, pkgs[i].declared.len() as int);
}

proof fn lemma_edge_rule(pkgs: Seq<PackageView>, i: int, j: int, n: int)
    requires
        0 <= i < pkgs.len(),
        0 <= n <= pkgs[i].declared.len(),
    ensures
        edges(pkgs, i, n).contains(j) <==> j != i && 0 <= j < pkgs.len() && exists|d: int|
            0 <= d < n && name_index(pkgs, #[trigger] pkgs[i].declared[d]) == j,
    decreases n,
{
    if n > 0 {
        lemma_edge_rule(pkgs, i, j, n - 1);
        let front = edges(pkgs, i, n - 1);
        let all = edges(pkgs, i, n);
        let name = pkgs[i].declared[n - 1];
        let k = name_index(pkgs, name);
        lemma_name_index(pkgs, name);
        if front.contains(j) {
            let m = choose|m: int| 0 <= m < front.len() && front[m] == j;
            assert(all[m] == j);
        }
        if k == j && k < pkgs.len() && k != i && !front.contains(k) {
            assert(all[front.len() as int] == j);
        }
        if all.contains(j) && !front.contains(j) {
            let m = choose|m: int| 0 <= m < all.len() && all[m] == j;
            if m < front.len() {
                assert(front[m] == j);
            }
            assert(name_index(pkgs, pkgs[i].declared[n - 1]) == j);
        }
        if exists|d: int| 0 <= d < n && name_index(pkgs, #[trigger] pkgs[i].declared[d]) == j {
            let d = choose|d: int|
                0 <= d < n && name_index(pkgs, #[trigger] pkgs[i].declared[d]) == j;
            if d < n - 1 {
                assert(name_index(pkgs, pkgs[i].declared[d]) == j);
            }
        }
    }
}

/// The two directions of the graph are the same edges.
pub proof fn law_edges_are_mutual(pkgs: Seq<PackageView>, i: int, j: int)
    requires
        0 <= i < pkgs.len(),
    ensures
        deps(pkgs, i).contains(j) <==> dependents(pkgs, j, pkgs.len() as int).contains(i),
{
    lemma_dependents(pkgs, j, pkgs.len() as int);
    let v = dependents(pkgs, j, pkgs.len() as int);
    if v.contains(i) {
        let k = choose|k: int| 0 <= k < v.len() && v[k] == i;
        assert(deps(pkgs, v[k]).contains(j));
    }
}

/// No package depends on itself directly, and no edge is there twice.
pub proof fn law_edges_are_simple(pkgs: Seq<PackageView>, i: int)
    ensures
        !deps(pkgs, i).contains(i),
        deps(pkgs, i).no_duplicates(),
{
    lemma_edges(pkgs, i, pkgs[i].declared.len() as int);
}

/// An order of the packages: each once, and behind everything it depends on.
pub open spec fn is_order(edges: Seq<Seq<int>>, v: Seq<int>) -> bool {
    &&& v.no_duplicates()
    &&& forall|x: int| #[trigger] v.contains(x) <==> 0 <= x < edges.len()
    &&& deps_first(edges, v)
}

/// Whether each package stands behind everything it depends on.
pub open spec fn deps_first(edges: Seq<Seq<int>>, v: Seq<int>) -> bool {
    forall|i: int, d: int|
        0 <= i < v.len() && #[trigger] edges[v[i]].contains(d) ==> exists|j: int|
            0 <= j < i && #[trigger] v[j] == d
}

/// A way that comes back to where it started.
pub open spec fn is_cycle(edges: Seq<Seq<int>>, way: Seq<int>) -> bool {
    is_way(edges, way) && way.len() > 1 && 0 <= way[0] < edges.len() && way[0] == way.last()
}

/// What is done and what remains make up the packages, and share none.
spec fn splits(n: int, done: Seq<int>, remaining: Seq<int>) -> bool {
    &&& done.no_duplicates()
    &&& remaining.no_duplicates()
    &&& forall|x: int| 0 <= x < n ==> #[trigger] done.contains(x) || remaining.contains(x)
    &&& forall|x: int| #[trigger] done.contains(x) ==> 0 <= x < n && !remaining.contains(x)
    &&& forall|x: int| #[trigger] remaining.contains(x) ==> 0 <= x < n && !done.contains(x)
}

proof fn lemma_part(
    edges: Seq<Seq<int>>,
    done: Seq<int>,
    remaining: Seq<int>,
    n: int,
    ready: bool,
)
    requires
        0 <= n <= remaining.len(),
        remaining.no_duplicates(),
    ensures
        part(edges, done, remaining, n, ready).no_duplicates(),
        forall|x: int| #[trigger]
            part(edges, done, remaining, n, ready).contains(x) <==> remaining.take(n).contains(x)
                && is_ready(edges, done, x) == ready,
    decreases n,
{
    if n > 0 {
        lemma_part(edges, done, remaining, n - 1, ready);
        let front = part(edges, done, remaining, n - 1, ready);
        let all = part(edges, done, remaining, n, ready);
        let last = remaining[n - 1];
        let t0 = remaining.take(n - 1);
        let t1 = remaining.take(n);
        assert(t1 =~= t0.push(last));
        assert(!t0.contains(last)) by {
            if t0.contains(last) {
                let m = choose|m: int| 0 <= m < t0.len() && t0[m] == last;
                assert(remaining[m] == remaining[n - 1]);
            }
        }
        assert forall|x: int| #[trigger] all.contains(x) <==> t1.contains(x) && is_ready(
            edges,
            done,
            x,
        ) == ready by {
            if all.contains(x) {
                let m = choose|m: int| 0 <= m < all.len() && all[m] == x;
                if m < front.len() {
                    assert(front[m] == x);
                    assert(front.contains(x));
                    let w = choose|w: int| 0 <= w < t0.len() && t0[w] == x;
                    assert(t1[w] == x);
                } else {
                    assert(t1[n - 1] == x);
                }
            }
            if t1.contains(x) && is_ready(edges, done, x) == ready {
                let m = choose|m: int| 0 <= m < t1.len() && t1[m] == x;
                if m < n - 1 {
                    assert(t0[m] == x);
                    assert(front.contains(x));
                    let w = choose|w: int| 0 <= w < front.len() && front[w] == x;
                    assert(all[w] == x);
                } else {
                    assert(all[front.len() as int] == x);
                }
            }
        }
        if is_ready(edges, done, last) == ready {
            assert(!front.contains(last));
        }
    } else {
        assert(remaining.take(0).len() == 0);
    }
}

proof fn lemma_concat_contains(a: Seq<int>, b: Seq<int>, x: int)
    ensures
        (a + b).contains(x) <==> a.contains(x) || b.contains(x),
{
    if a.contains(x) {
        let k = choose|k: int| 0 <= k < a.len() && a[k] == x;
        assert((a + b)[k] == x);
    }
    if b.contains(x) {
        let k = choose|k: int| 0 <= k < b.len() && b[k] == x;
        assert((a + b)[a.len() + k] == x);
    }
    if (a + b).contains(x) {
        let k = choose|k: int| 0 <= k < (a + b).len() && (a + b)[k] == x;
        if k < a.len() {
            assert(a[k] == x);
        } else {
            assert(b[k - a.len()] == x);
        }
    }
}

proof fn lemma_rounds(edges: Seq<Seq<int>>, remaining: Seq<int>, done: Seq<int>)
    requires
        in_range(edges),
        splits(edges.len() as int, done, remaining),
        deps_first(edges, done),
    ensures
        match rounds(edges, remaining, done) {
            Ok(v) => is_order(edges, v),
            Err(b) => {
                &&& b.len() > 0
                &&& forall|x: int| #[trigger] b.contains(x) ==> 0 <= x < edges.len() && exists|d: int|
                    #[trigger] edges[x].contains(d) && b.contains(d)
            },
        },
    decreases remaining.len(),
{
    let n = remaining.len() as int;
    let ready = part(edges, done, remaining, n, true);
    let blocked = part(edges, done, remaining, n, false);
    lemma_part_len(edges, done, remaining, n);
    lemma_part(edges, done, remaining, n, true);
    lemma_part(edges, done, remaining, n, false);
    assert(remaining.take(n) =~= remaining);
    if remaining.len() == 0 {
        assert forall|x: int| #[trigger] done.contains(x) <==> 0 <= x < edges.len() by {
            assert(!remaining.contains(x));
        }
    } else if ready.len() == 0 {
        assert forall|x: int| #[trigger] blocked.contains(x) implies 0 <= x < edges.len()
            && exists|d: int| #[trigger] edges[x].contains(d) && blocked.contains(d) by {
            assert(remaining.contains(x));
            assert(done.contains(x) || remaining.contains(x));
            let k = choose|k: int|
                0 <= k < edges[x].len() && !done.contains(#[trigger] edges[x][k]);
            let d = edges[x][k];
            assert(0 <= edges[x][k] < edges.len());
            assert(done.contains(d) || remaining.contains(d));
            assert(!ready.contains(d));
            assert(edges[x].contains(d) && blocked.contains(d));
        }
    } else {
        let next = done + ready;
        assert forall|x: int| #[trigger] next.contains(x) <==> done.contains(x) || ready.contains(
            x,
        ) by {
            lemma_concat_contains(done, ready, x);
        }
        assert(next.no_duplicates()) by {
            assert forall|i: int, j: int| 0 <= i < next.len() && 0 <= j < next.len() && i
                != j implies next[i] != next[j] by {
                if i < done.len() && j >= done.len() {
                    assert(done.contains(next[i]));
                    assert(ready[j - done.len()] == next[j]);
                    assert(ready.contains(next[j]));
                } else if j < done.len() && i >= done.len() {
                    assert(done.contains(next[j]));
                    assert(ready[i - done.len()] == next[i]);
                    assert(ready.contains(next[i]));
                }
            }
        }
        assert forall|x: int| 0 <= x < edges.len() implies #[trigger] next.contains(x)
            || blocked.contains(x) by {
            assert(done.contains(x) || remaining.contains(x));
        }
        assert(splits(edges.len() as int, next, blocked));
        assert forall|i: int, d: int|
            0 <= i < next.len() && #[trigger] edges[next[i]].contains(d) implies exists|j: int|
            0 <= j < i && #[trigger] next[j] == d by {
            if i < done.len() {
                assert(edges[done[i]].contains(d));
                let j = choose|j: int| 0 <= j < i && #[trigger] done[j] == d;
                assert(next[j] == d);
            } else {
                let x = next[i];
                assert(ready[i - done.len()] == x);
                assert(ready.contains(x));
                let k = choose|k: int| 0 <= k < edges[x].len() && edges[x][k] == d;
                assert(done.contains(edges[x][k]));
                let j = choose|j: int| 0 <= j < done.len() && done[j] == d;
                assert(next[j] == d);
            }
        }
        lemma_rounds(edges, blocked, next);
    }
}

proof fn lemma_all_rounds(pkgs: Seq<PackageView>)
    ensures
        match rounds(upstream_edges(pkgs), below(pkgs.len()), Seq::empty()) {
            Ok(v) => is_order(upstream_edges(pkgs), v),
            Err(b) => {
                &&& b.len() > 0
                &&& forall|x: int| #[trigger] b.contains(x) ==> 0 <= x < pkgs.len() && exists|d: int|
                    #[trigger] upstream_edges(pkgs)[x].contains(d) && b.contains(d)
            },
        },
{
    let e = upstream_edges(pkgs);
    lemma_edges_in_range(pkgs);
    let all = below(pkgs.len());
    let none = Seq::<int>::empty();
    assert forall|x: int| 0 <= x < e.len() implies #[trigger] none.contains(x) || all.contains(
        x,
    ) by {
        assert(all[x] == x);
    }
    assert(splits(e.len() as int, none, all));
    lemma_rounds(e, all, none);
}

/// The order puts dependencies first: it holds every package once, each behind
/// everything it depends on.
pub proof fn law_order_puts_dependencies_first(pkgs: Seq<PackageView>)
    ensures
        topo(pkgs) matches Ok(v) ==> is_order(upstream_edges(pkgs), v) && v.len() == pkgs.len(),
{
    lemma_all_rounds(pkgs);
    if let Ok(v) = topo(pkgs) {
        let all = below(pkgs.len());
        v.unique_seq_to_set();
        all.unique_seq_to_set();
        assert forall|x: int| v.to_set().contains(x) <==> all.to_set().contains(x) by {
            assert(v.contains(x) <==> 0 <= x < pkgs.len());
            if 0 <= x < pkgs.len() {
                assert(all[x] == x);
            }
        }
        assert(v.to_set() =~= all.to_set());
    }
}

/// In an order, what lies further along a way stands further in front.
proof fn lemma_way_descends(edges: Seq<Seq<int>>, v: Seq<int>, way: Seq<int>, at: int, n: int) -> (p:
    int)
    requires
        deps_first(edges, v),
        is_way(edges, way),
        0 <= n < way.len(),
        0 <= at < v.len(),
        v[at] == way[0],
    ensures
        0 <= p <= at,
        v[p] == way[n],
        n > 0 ==> p < at,
    decreases n,
{
    if n == 0 {
        at
    } else {
        let q = lemma_way_descends(edges, v, way, at, n - 1);
        assert(edges[way[n - 1]].contains(way[n - 1 + 1]));
        assert(edges[v[q]].contains(way[n]));
        choose|j: int| 0 <= j < q && #[trigger] v[j] == way[n]
    }
}

/// A walk of `n` steps that never leaves `b`.
proof fn lemma_walk(edges: Seq<Seq<int>>, b: Seq<int>, n: nat) -> (way: Seq<int>)
    requires
        b.len() > 0,
        forall|x: int| #[trigger] b.contains(x) ==> 0 <= x < edges.len() && exists|d: int|
            #[trigger] edges[x].contains(d) && b.contains(d),
    ensures
        is_way(edges, way),
        way.len() == n + 1,
        forall|k: int| 0 <= k < way.len() ==> b.contains(#[trigger] way[k]),
    decreases n,
{
    if n == 0 {
        assert(b.contains(b[0]));
        seq![b[0]]
    } else {
        let front = lemma_walk(edges, b, (n - 1) as nat);
        assert(b.contains(front[front.len() - 1]));
        let d = choose|d: int| #[trigger] edges[front.last()].contains(d) && b.contains(d);
        let way = front.push(d);
        assert forall|k: int| 0 <= k < way.len() - 1 implies edges[#[trigger] way[k]].contains(
            way[k + 1],
        ) by {
            if k < front.len() - 1 {
                assert(edges[front[k]].contains(front[k + 1]));
            }
        }
        assert forall|k: int| 0 <= k < way.len() implies b.contains(#[trigger] way[k]) by {
            if k < front.len() {
                assert(b.contains(front[k]));
            }
        }
        way
    }
}

/// Different numbers in `0..n` are at most `n` many.
proof fn lemma_distinct_numbers(v: Seq<int>, n: nat)
    requires
        v.no_duplicates(),
        forall|k: int| 0 <= k < v.len() ==> 0 <= #[trigger] v[k] < n,
    ensures
        v.len() <= n,
{
    let all = below(n);
    assert forall|x: int| v.to_set().contains(x) implies all.to_set().contains(x) by {
        let k = choose|k: int| 0 <= k < v.len() && v[k] == x;
        assert(all[x] == x);
    }
    v.unique_seq_to_set();
    all.lemma_cardinality_of_set();
    vstd::set_lib::lemma_len_subset(v.to_set(), all.to_set());
}

/// A way longer than there are packages holds a cycle.
proof fn lemma_long_way_cycles(e: Seq<Seq<int>>, way: Seq<int>) -> (c: Seq<int>)
    requires
        is_way(e, way),
        way.len() > e.len(),
        forall|k: int| 0 <= k < way.len() ==> 0 <= #[trigger] way[k] < e.len(),
    ensures
        is_cycle(e, c),
{
    if way.no_duplicates() {
        lemma_distinct_numbers(way, e.len());
    }
    let (i, j) = choose|i: int, j: int|
        0 <= i < way.len() && 0 <= j < way.len() && i != j && way[i] == way[j];
    let (lo, hi) = if i < j {
        (i, j)
    } else {
        (j, i)
    };
    let c = way.subrange(lo, hi + 1);
    assert forall|k: int| 0 <= k < c.len() - 1 implies e[#[trigger] c[k]].contains(c[k + 1]) by {
        assert(e[way[lo + k]].contains(way[lo + k + 1]));
    }
    c
}

/// There is no order exactly when the package graph has a cycle.
pub proof fn law_order_fails_exactly_on_cycles(pkgs: Seq<PackageView>)
    ensures
        topo(pkgs) is Err <==> exists|way: Seq<int>| is_cycle(upstream_edges(pkgs), way),
{
    let e = upstream_edges(pkgs);
    lemma_all_rounds(pkgs);
    match rounds(e, below(pkgs.len()), Seq::empty()) {
        Ok(v) => {
            assert forall|way: Seq<int>| !is_cycle(e, way) by {
                if is_cycle(e, way) {
                    assert(v.contains(way[0]));
                    let at = choose|k: int| 0 <= k < v.len() && v[k] == way[0];
                    let p = lemma_way_descends(e, v, way, at, way.len() - 1);
                    assert(v[p] == v[at]);
                }
            }
        },
        Err(b) => {
            let way = lemma_walk(e, b, pkgs.len());
            assert forall|k: int| 0 <= k < way.len() implies 0 <= #[trigger] way[k] < e.len() by {
                assert(b.contains(way[k]));
            }
            let c = lemma_long_way_cycles(e, way);
            assert(is_cycle(e, c));
        },
    }
}

/// A package depends on another one exactly if its manifest declares the name that
/// the other one's manifest gives it; where several have the name, on the first.
pub proof fn law_dependencies_go_by_name(pkgs: Seq<PackageView>, i: int, j: int)
    requires
        0 <= i < pkgs.len(),
        0 <= j < pkgs.len(),
    ensures
        deps(pkgs, i).contains(j) <==> i != j && exists|d: int|
            0 <= d < pkgs[i].declared.len() && pkgs[j].name == Some(#[trigger] pkgs[i].declared[d])
                && forall|k: int| 0 <= k < j ==> (#[trigger] pkgs[k]).name != pkgs[j].name,
{
    law_edge_rule(pkgs, i, j);
    if deps(pkgs, i).contains(j) {
        let d = choose|d: int|
            0 <= d < pkgs[i].declared.len() && name_index(pkgs, #[trigger] pkgs[i].declared[d])
                == j;
        lemma_name_index(pkgs, pkgs[i].declared[d]);
        assert(pkgs[j].name == Some(pkgs[i].declared[d]));
    }
    if exists|d: int|
        0 <= d < pkgs[i].declared.len() && pkgs[j].name == Some(#[trigger] pkgs[i].declared[d])
            && forall|k: int| 0 <= k < j ==> (#[trigger] pkgs[k]).name != pkgs[j].name {
        let d = choose|d: int|
            0 <= d < pkgs[i].declared.len() && pkgs[j].name == Some(#[trigger] pkgs[i].declared[d])
                && forall|k: int| 0 <= k < j ==> (#[trigger] pkgs[k]).name != pkgs[j].name;
        lemma_name_index(pkgs, pkgs[i].declared[d]);
        let at = name_index(pkgs, pkgs[i].declared[d]);
        if at != j {
            if at < j {
                assert(pkgs[at].name != pkgs[j].name);
            } else {
                assert(pkgs[j].name != Some(pkgs[i].declared[d]));
            }
        }
        assert(name_index(pkgs, pkgs[i].declared[d]) == j);
    }
}

/// What depends on a package is listed once for each package that does, in the order
/// of the packages.
pub proof fn law_dependents_are_in_order(pkgs: Seq<PackageView>, j: int, n: int)
    ensures
        forall|k: int, l: int|
            0 <= k < l < dependents(pkgs, j, n).len() ==> #[trigger] dependents(pkgs, j, n)[k]
                < #[trigger] dependents(pkgs, j, n)[l],
        forall|k: int|
            0 <= k < dependents(pkgs, j, n).len() ==> 0 <= #[trigger] dependents(pkgs, j, n)[k] < n,
    decreases n,
{
    if n > 0 {
        law_dependents_are_in_order(pkgs, j, n - 1);
        let front = dependents(pkgs, j, n - 1);
        let all = dependents(pkgs, j, n);
        assert forall|k: int| 0 <= k < all.len() implies 0 <= #[trigger] all[k] < n by {
            if k < front.len() {
                assert(all[k] == front[k]);
            }
        }
        assert forall|k: int, l: int| 0 <= k < l < all.len() implies #[trigger] all[k]
            < #[trigger] all[l] by {
            assert(all[k] == front[k]);
            if l < front.len() {
                assert(all[l] == front[l]);
            }
        }
    }
}

/// A closure holds what the roots lead to and what that leads to, and nothing that
/// neither a root nor something in it leads to.
pub proof fn law_closures(edges: Seq<Seq<int>>, roots: Seq<int>, v: Seq<int>, x: int, y: int)
    requires
        is_closure(edges, roots, v),
    ensures
        (roots.contains(x) || v.contains(x)) && edges[x].contains(y) && !roots.contains(y)
            ==> v.contains(y),
        v.contains(y) ==> !roots.contains(y) && exists|z: int|
            (roots.contains(z) || v.contains(z)) && #[trigger] edges[z].contains(y),
{
    if (roots.contains(x) || v.contains(x)) && edges[x].contains(y) && !roots.contains(y) {
        if roots.contains(x) {
            let way = seq![x];
            assert(is_way(edges, way) && way[0] == x && way.last() == x);
            assert(reaches(edges, roots, x));
        }
        lemma_way_extends(edges, roots, x, y);
    }
    if v.contains(y) {
        let way = choose|way: Seq<int>| #[trigger]
            is_way(edges, way) && roots.contains(way[0]) && way.last() == y;
        let front = way.drop_last();
        assert(way.len() > 1);
        let z = front.last();
        assert forall|k: int| 0 <= k < front.len() - 1 implies edges[#[trigger] front[k]].contains(
            front[k + 1],
        ) by {
            assert(edges[way[k]].contains(way[k + 1]));
        }
        assert(is_way(edges, front) && front[0] == way[0]);
        assert(reaches(edges, roots, z));
        assert(edges[way[way.len() - 2]].contains(way[way.len() - 2 + 1]));
        assert(edges[z].contains(y));
        if !roots.contains(z) {
            assert(v.contains(z));
        }
    }
}

proof fn lemma_part_ascends(
    edges: Seq<Seq<int>>,
    done: Seq<int>,
    remaining: Seq<int>,
    n: int,
    ready: bool,
)
    requires
        0 <= n <= remaining.len(),
        forall|k: int, l: int| 0 <= k < l < remaining.len() ==> remaining[k] < remaining[l],
    ensures
        forall|k: int, l: int|
            0 <= k < l < part(edges, done, remaining, n, ready).len() ==> #[trigger] part(
                edges,
                done,
                remaining,
                n,
                ready,
            )[k] < #[trigger] part(edges, done, remaining, n, ready)[l],
        forall|x: int| #[trigger]
            part(edges, done, remaining, n, ready).contains(x) <==> remaining.take(n).contains(x)
                && is_ready(edges, done, x) == ready,
    decreases n,
{
    if n > 0 {
        lemma_part_ascends(edges, done, remaining, n - 1, ready);
        let front = part(edges, done, remaining, n - 1, ready);
        let all = part(edges, done, remaining, n, ready);
        let last = remaining[n - 1];
        let a = remaining.take(n - 1);
        let b = remaining.take(n);
        assert(b =~= a.push(last));
        assert forall|k: int| 0 <= k < front.len() implies #[trigger] front[k] < last by {
            assert(front.contains(front[k]));
            let m = choose|m: int| 0 <= m < a.len() && a[m] == front[k];
            assert(remaining[m] < remaining[n - 1]);
        }
        assert forall|x: int| #[trigger]
            all.contains(x) <==> b.contains(x) && is_ready(edges, done, x) == ready by {
            assert(front.contains(x) <==> a.contains(x) && is_ready(edges, done, x) == ready);
            if all.contains(x) {
                let k = choose|k: int| 0 <= k < all.len() && all[k] == x;
                if k < front.len() {
                    assert(front[k] == x);
                    let m = choose|m: int| 0 <= m < a.len() && a[m] == x;
                    assert(b[m] == x);
                } else {
                    assert(b[n - 1] == x);
                }
            }
            if b.contains(x) && is_ready(edges, done, x) == ready {
                let m = choose|m: int| 0 <= m < b.len() && b[m] == x;
                if m < n - 1 {
                    assert(a[m] == x);
                    let k = choose|k: int| 0 <= k < front.len() && front[k] == x;
                    assert(all[k] == x);
                } else {
                    assert(all[front.len() as int] == x);
                }
            }
        }
    } else {
        assert(remaining.take(0) =~= Seq::empty());
    }
}

/// Whether one item comes before another one.
pub open spec fn comes_before(v: Seq<int>, i: int, j: int) -> bool {
    exists|a: int, b: int| 0 <= a < b < v.len() && #[trigger] v[a] == i && #[trigger] v[b] == j
}

proof fn lemma_rounds_keep(edges: Seq<Seq<int>>, remaining: Seq<int>, done: Seq<int>)
    requires
        rounds(edges, remaining, done) is Ok,
        forall|k: int, l: int| 0 <= k < l < remaining.len() ==> remaining[k] < remaining[l],
    ensures
        done.is_prefix_of(rounds(edges, remaining, done)->Ok_0),
        forall|x: int|
            remaining.contains(x) ==> exists|b: int|
                done.len() <= b < (rounds(edges, remaining, done)->Ok_0).len() && #[trigger] (rounds(
                    edges,
                    remaining,
                    done,
                )->Ok_0)[b] == x,
    decreases remaining.len(),
{
    let n = remaining.len() as int;
    let v = rounds(edges, remaining, done)->Ok_0;
    if n > 0 {
        let ready = part(edges, done, remaining, n, true);
        let rest = part(edges, done, remaining, n, false);
        lemma_part_len(edges, done, remaining, n);
        lemma_part_ascends(edges, done, remaining, n, true);
        lemma_part_ascends(edges, done, remaining, n, false);
        assert(remaining.take(n) =~= remaining);
        lemma_rounds_keep(edges, rest, done + ready);
        assert(done.is_prefix_of(done + ready));
        assert forall|k: int| 0 <= k < (done + ready).len() implies v[k] == (done + ready)[k] by {
            assert(v.take((done + ready).len() as int)[k] == v[k]);
        }
        assert(v.take(done.len() as int) =~= done);
        assert forall|x: int| remaining.contains(x) implies exists|b: int|
            done.len() <= b < v.len() && #[trigger] v[b] == x by {
            if ready.contains(x) {
                let k = choose|k: int| 0 <= k < ready.len() && ready[k] == x;
                assert((done + ready)[done.len() + k] == x);
                assert(v[done.len() + k] == x);
            } else {
                assert(!is_ready(edges, done, x));
                assert(rest.contains(x));
            }
        }
    }
}

proof fn lemma_rounds_order(
    edges: Seq<Seq<int>>,
    remaining: Seq<int>,
    done: Seq<int>,
    i: int,
    j: int,
)
    requires
        rounds(edges, remaining, done) is Ok,
        forall|k: int, l: int| 0 <= k < l < remaining.len() ==> remaining[k] < remaining[l],
        remaining.contains(i),
        remaining.contains(j),
        i < j,
        forall|d: int| edges[i].contains(d) ==> #[trigger] edges[j].contains(d),
    ensures
        comes_before(rounds(edges, remaining, done)->Ok_0, i, j),
    decreases remaining.len(),
{
    let n = remaining.len() as int;
    let v = rounds(edges, remaining, done)->Ok_0;
    let ready = part(edges, done, remaining, n, true);
    let rest = part(edges, done, remaining, n, false);
    lemma_part_len(edges, done, remaining, n);
    lemma_part_ascends(edges, done, remaining, n, true);
    lemma_part_ascends(edges, done, remaining, n, false);
    assert(remaining.take(n) =~= remaining);
    lemma_rounds_keep(edges, rest, done + ready);
    assert forall|k: int| 0 <= k < (done + ready).len() implies v[k] == (done + ready)[k] by {
        assert(v.take((done + ready).len() as int)[k] == v[k]);
    }
    if is_ready(edges, done, j) {
        assert forall|k: int| 0 <= k < edges[i].len() implies done.contains(
            #[trigger] edges[i][k],
        ) by {
            assert(edges[i].contains(edges[i][k]));
            assert(edges[j].contains(edges[i][k]));
            let m = choose|m: int| 0 <= m < edges[j].len() && edges[j][m] == edges[i][k];
            assert(done.contains(edges[j][m]));
        }
    }
    if is_ready(edges, done, i) {
        assert(ready.contains(i));
        let a = choose|a: int| 0 <= a < ready.len() && ready[a] == i;
        assert(v[done.len() + a] == i);
        if is_ready(edges, done, j) {
            assert(ready.contains(j));
            let b = choose|b: int| 0 <= b < ready.len() && ready[b] == j;
            if b < a {
                assert(ready[b] < ready[a]);
            }
            assert(v[done.len() + b] == j);
        } else {
            assert(rest.contains(j));
            let b = choose|b: int| (done + ready).len() <= b < v.len() && #[trigger] v[b] == j;
            assert(v[b] == j);
        }
    } else {
        assert(rest.contains(i) && rest.contains(j));
        lemma_rounds_order(edges, rest, done + ready, i, j);
    }
}

/// The order in which a workspace is built is that of the packages wherever nothing
/// asks for another: a package comes before a later one that depends on all that it
/// depends on itself.
pub proof fn law_order_follows_the_packages(pkgs: Seq<PackageView>, i: int, j: int)
    requires
        topo(pkgs) is Ok,
        0 <= i < j < pkgs.len(),
        forall|d: int| deps(pkgs, i).contains(d) ==> #[trigger] deps(pkgs, j).contains(d),
    ensures
        comes_before(topo(pkgs)->Ok_0, i, j),
{
    let edges = upstream_edges(pkgs);
    let all = below(pkgs.len());
    assert(all[i] == i && all[j] == j);
    assert forall|d: int| edges[i].contains(d) implies #[trigger] edges[j].contains(d) by {
        assert(deps(pkgs, j).contains(d));
    }
    lemma_rounds_order(edges, all, Seq::empty(), i, j);
}

/// Packages that depend on each other are named in the error: each of them depends on
/// one of them.
pub proof fn law_cycles_are_named(pkgs: Seq<PackageView>) -> (blocked: Seq<int>)
    requires
        topo(pkgs) is Err,
    ensures
        blocked.len() > 0,
        forall|x: int| #[trigger]
            blocked.contains(x) ==> 0 <= x < pkgs.len() && exists|d: int| #[trigger]
                deps(pkgs, x).contains(d) && blocked.contains(d),
        topo(pkgs) == Err::<Seq<int>, ErrorView>(
            ErrorView::Runtime(
                "package dependency cycle among: "@ + text::joined(
                    Seq::new(blocked.len(), |k: int| pkgs[blocked[k]].rel),
                    seq![',', ' '],
                ),
            ),
        ),
{
    reveal_strlit(", ");
    assert(", "@ =~= seq![',', ' ']);
    let edges = upstream_edges(pkgs);
    let all = below(pkgs.len());
    let none = Seq::<int>::empty();
    lemma_all_rounds(pkgs);
    let blocked = rounds(edges, all, none)->Err_0;
    assert(rel_texts(pkgs, blocked) =~= Seq::new(blocked.len(), |k: int| pkgs[blocked[k]].rel));
    assert forall|x: int| #[trigger] blocked.contains(x) implies 0 <= x < pkgs.len() && exists|d: int|
        #[trigger] deps(pkgs, x).contains(d) && blocked.contains(d) by {
        let d = choose|d: int| #[trigger] edges[x].contains(d) && blocked.contains(d);
        assert(deps(pkgs, x).contains(d));
    }
    blocked
}

} // verus!
