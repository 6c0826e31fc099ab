//! The import graph between pages and a dependency-first order of pages.

use vstd::prelude::*;
use crate::outside::{
    add_to_group, group_added, group_entries, key_pos, new_groups, sort_groups, text_le,
};
use crate::parse::{page_views, Page, PageView};
use indexmap::IndexMap;

verus! {

/// The index of the last page whose module is `m` (-1 if none).
pub open spec fn module_index(ps: Seq<PageView>, m: Seq<char>) -> int
    decreases ps.len(),
{
    if ps.len() == 0 {
        -1
    } else if ps.last().module == m {
        ps.len() - 1
    } else {
        module_index(ps.drop_last(), m)
    }
}

/// Page `a` imports the module of page `b` (the last page with that module).
pub open spec fn depends_on(ps: Seq<PageView>, a: int, b: int) -> bool {
    &&& 0 <= a < ps.len()
    &&& 0 <= b
    &&& exists|k: int|
        0 <= k < ps[a].imports.len() && module_index(ps, #[trigger] ps[a].imports[k]) == b
}

/// A chain of pages, each depending on the next.
pub open spec fn is_chain(ps: Seq<PageView>, c: Seq<int>) -> bool {
    &&& c.len() >= 1
    &&& forall|t: int| 0 <= t < c.len() - 1 ==> depends_on(ps, #[trigger] c[t], c[t + 1])
}

/// Page `a` depends on page `b` directly or through other pages (or is it).
pub open spec fn reaches(ps: Seq<PageView>, a: int, b: int) -> bool {
    exists|c: Seq<int>| is_chain(ps, c) && c[0] == a && c.last() == b
}

/// Index `v` occurs in `r`.
pub open spec fn lists(r: Seq<usize>, v: int) -> bool {
    exists|i: int| 0 <= i < r.len() && r[i] == v
}

/// `r` lists each page index exactly once.
pub open spec fn is_page_order(ps: Seq<PageView>, r: Seq<usize>) -> bool {
    &&& r.len() == ps.len()
    &&& forall|i: int| 0 <= i < r.len() ==> #[trigger] r[i] < ps.len()
    &&& forall|i: int, j: int| 0 <= i < j < r.len() ==> r[i] != r[j]
    &&& forall|v: int| 0 <= v < ps.len() ==> #[trigger] lists(r, v)
}

/// In `r`, every page comes after the pages it imports, except where the
/// imported page depends back on it (an import cycle).
pub open spec fn dependencies_first(ps: Seq<PageView>, r: Seq<usize>) -> bool {
    forall|i: int, j: int|
        0 <= i < r.len() && 0 <= j < r.len() && depends_on(ps, #[trigger] r[i] as int, #[trigger] r[j] as int)
            ==> j < i || reaches(ps, r[j] as int, r[i] as int)
}

proof fn lemma_module_index_range(ps: Seq<PageView>, m: Seq<char>)
    ensures
        -1 <= module_index(ps, m) < ps.len(),
        module_index(ps, m) >= 0 ==> ps[module_index(ps, m)].module == m,
        module_index(ps, m) >= 0 ==> forall|j: int|
            module_index(ps, m) < j < ps.len() ==> ps[j].module != m,
        module_index(ps, m) < 0 ==> forall|j: int| 0 <= j < ps.len() ==> ps[j].module != m,
    decreases ps.len(),
{
    if ps.len() > 0 && ps.last().module != m {
        lemma_module_index_range(ps.drop_last(), m);
        let r = module_index(ps, m);
        assert forall|j: int| r < j < ps.len() - 1 implies ps[j].module != m by {
            assert(ps[j] == ps.drop_last()[j]);
        }
        if r < 0 {
            assert forall|j: int| 0 <= j < ps.len() implies ps[j].module != m by {
                if j < ps.len() - 1 {
                    assert(ps[j] == ps.drop_last()[j]);
                }
            }
        } else {
            assert(ps[r] == ps.drop_last()[r]);
        }
    }
}

proof fn lemma_depends_range(ps: Seq<PageView>, a: int, b: int)
    requires
        depends_on(ps, a, b),
    ensures
        0 <= b < ps.len(),
{
    let k = choose|k: int| 0 <= k < ps[a].imports.len() && module_index(ps, #[trigger] ps[a].imports[k]) == b;
    lemma_module_index_range(ps, ps[a].imports[k]);
}

/// The index of the last page whose module is `m`.
fn module_index_exec(pages: &Vec<Page>, m: &String) -> (r: Option<usize>)
    ensures
        match r {
            Some(i) => module_index(page_views(pages@), m@) == i as int,
            None => module_index(page_views(pages@), m@) == -1,
        },
{
    let ghost ps = page_views(pages@);
    let mut i = pages.len();
    assert(ps.take(i as int) =~= ps);
    while i > 0
        invariant
            i <= pages.len(),
            ps == page_views(pages@),
            module_index(ps, m@) == module_index(ps.take(i as int), m@),
        decreases i,
    {
        assert(ps.take(i as int).drop_last() =~= ps.take(i - 1));
        if pages[i - 1].module == *m {
            return Some(i - 1);
        }
        i = i - 1;
    }
    None
}

/// The number of imports of page `v` that name a page's module.
pub open spec fn dep_count(ps: Seq<PageView>, v: int) -> nat {
    known_count(ps, ps[v].imports)
}

/// The number of imports among `imps` that name the module of a page.
pub open spec fn known_count(ps: Seq<PageView>, imps: Seq<Seq<char>>) -> nat
    decreases imps.len(),
{
    if imps.len() == 0 {
        0
    } else {
        known_count(ps, imps.drop_last()) + if module_index(ps, imps.last()) >= 0 {
            1nat
        } else {
            0nat
        }
    }
}

/// `x` inserted into the ascending sequence `s`, after the elements equal to it.
pub open spec fn sorted_insert(s: Seq<usize>, x: usize) -> Seq<usize>
    decreases s.len(),
{
    if s.len() == 0 {
        seq![x]
    } else if s.last() <= x {
        s.push(x)
    } else {
        sorted_insert(s.drop_last(), x).push(s.last())
    }
}

proof fn lemma_sorted_insert_at(s: Seq<usize>, x: usize, p: int)
    requires
        0 <= p <= s.len(),
        forall|i: int| 0 <= i < p ==> s[i] <= x,
        forall|i: int| p <= i < s.len() ==> s[i] > x,
    ensures
        sorted_insert(s, x) == s.insert(p, x),
    decreases s.len(),
{
    if s.len() == 0 {
        assert(s.insert(p, x) =~= seq![x]);
    } else if p == s.len() {
        assert(s.insert(p, x) =~= s.push(x));
    } else {
        lemma_sorted_insert_at(s.drop_last(), x, p);
        assert(s.drop_last().insert(p, x).push(s.last()) =~= s.insert(p, x));
    }
}

/// Inserts `x` into the ascending sequence `v`, after the elements equal to it.
fn insert_sorted(v: &mut Vec<usize>, x: usize)
    requires
        forall|i: int, j: int| 0 <= i < j < old(v)@.len() ==> old(v)@[i] <= old(v)@[j],
    ensures
        final(v)@ == sorted_insert(old(v)@, x),
        final(v)@.len() == old(v)@.len() + 1,
        forall|i: int, j: int| 0 <= i < j < final(v)@.len() ==> final(v)@[i] <= final(v)@[j],
        forall|y: usize| #[trigger] final(v)@.contains(y) <==> (old(v)@.contains(y) || y == x),
{
    let mut p: usize = 0;
    while p < v.len() && v[p] <= x
        invariant
            p <= v.len(),
            v@ == old(v)@,
            forall|i: int| 0 <= i < p ==> v@[i] <= x,
        decreases v.len() - p,
    {
        p = p + 1;
    }
    let ghost old_v = v@;
    proof {
        assert forall|i: int| p <= i < old_v.len() implies old_v[i] > x by {
            assert(old_v[p as int] > x);
            if i > p {
                assert(old_v[p as int] <= old_v[i]);
            }
        }
        lemma_sorted_insert_at(old_v, x, p as int);
    }
    v.insert(p, x);
    assert forall|y: usize| #[trigger] v@.contains(y) <==> (old_v.contains(y) || y == x) by {
        if v@.contains(y) {
            let k = choose|k: int| 0 <= k < v@.len() && v@[k] == y;
            if k < p {
                assert(old_v[k] == y);
            } else if k > p {
                assert(old_v[k - 1] == y);
            }
        }
        if old_v.contains(y) {
            let k = choose|k: int| 0 <= k < old_v.len() && old_v[k] == y;
            if k < p {
                assert(v@[k] == y);
            } else {
                assert(v@[k + 1] == y);
            }
        }
        if y == x {
            assert(v@[p as int] == x);
        }
    }
    assert(old_v == old(v)@);
}

/// The pages named by the imports `imps`, each once per import line, in
/// ascending order.
pub open spec fn deps_fold(ps: Seq<PageView>, imps: Seq<Seq<char>>) -> Seq<usize>
    decreases imps.len(),
{
    if imps.len() == 0 {
        Seq::empty()
    } else {
        let d = deps_fold(ps, imps.drop_last());
        let j = module_index(ps, imps.last());
        if j >= 0 {
            sorted_insert(d, j as usize)
        } else {
            d
        }
    }
}

/// The pages that page `v` depends on, ascending, each once per import
/// line naming it.
pub open spec fn deps_spec(ps: Seq<PageView>, v: int) -> Seq<usize> {
    deps_fold(ps, ps[v].imports)
}

/// The pages that page `v` depends on, ascending (a page appears once per
/// import line naming it).
fn deps_of(pages: &Vec<Page>, v: usize) -> (r: Vec<usize>)
    requires
        v < pages.len(),
    ensures
        r@ == deps_spec(page_views(pages@), v as int),
        r@.len() == dep_count(page_views(pages@), v as int),
        forall|i: int, j: int| 0 <= i < j < r@.len() ==> r@[i] <= r@[j],
        forall|b: usize| r@.contains(b) <==> depends_on(page_views(pages@), v as int, b as int),
        forall|i: int| 0 <= i < r@.len() ==> #[trigger] r@[i] < pages.len(),
{
    let ghost ps = page_views(pages@);
    let imports = &pages[v].imports;
    let ghost imps = ps[v as int].imports;
    assert(imps == crate::parse::string_views(imports@));
    let mut r: Vec<usize> = Vec::new();
    let mut k: usize = 0;
    while k < imports.len()
        invariant
            k <= imports.len(),
            ps == page_views(pages@),
            imps == ps[v as int].imports,
            imps == crate::parse::string_views(imports@),
            r@.len() == known_count(ps, imps.take(k as int)),
            r@ == deps_fold(ps, imps.take(k as int)),
            forall|i: int, j: int| 0 <= i < j < r@.len() ==> r@[i] <= r@[j],
            forall|b: usize|
                r@.contains(b) <==> exists|q: int|
                    0 <= q < k && module_index(ps, #[trigger] imps[q]) == b as int,
            forall|i: int| 0 <= i < r@.len() ==> #[trigger] r@[i] < pages.len(),
        decreases imports.len() - k,
    {
        assert(imps.take(k + 1).drop_last() =~= imps.take(k as int));
        proof {
            lemma_module_index_range(ps, imps[k as int]);
        }
        match module_index_exec(pages, &imports[k]) {
            Some(j) => {
                let ghost before = r@;
                insert_sorted(&mut r, j);
                assert forall|b: usize| r@.contains(b) <==> exists|q: int|
                    0 <= q < k + 1 && module_index(ps, #[trigger] imps[q]) == b as int by {
                    if b == j {
                        assert(module_index(ps, imps[k as int]) == b as int);
                    }
                    if exists|q: int| 0 <= q < k + 1 && module_index(ps, #[trigger] imps[q]) == b as int {
                        let q = choose|q: int| 0 <= q < k + 1 && module_index(ps, #[trigger] imps[q]) == b as int;
                        if q < k {
                            assert(before.contains(b));
                        }
                    }
                }
                assert forall|i: int| 0 <= i < r@.len() implies #[trigger] r@[i] < pages.len() by {
                    assert(r@.contains(r@[i]));
                    if r@[i] != j {
                        let w = choose|w: int| 0 <= w < before.len() && before[w] == r@[i];
                        assert(before[w] < pages.len());
                    }
                }
            },
            None => {
                assert forall|b: usize| r@.contains(b) <==> exists|q: int|
                    0 <= q < k + 1 && module_index(ps, #[trigger] imps[q]) == b as int by {
                    if exists|q: int| 0 <= q < k + 1 && module_index(ps, #[trigger] imps[q]) == b as int {
                        let q = choose|q: int| 0 <= q < k + 1 && module_index(ps, #[trigger] imps[q]) == b as int;
                        assert(q < k);
                    }
                }
            },
        }
        k = k + 1;
    }
    assert(imps.take(imports@.len() as int) =~= imps);
    r
}

// ---------------------------------------------------------------------------
// Dependency-first order (depth-first search with an explicit stack)
// ---------------------------------------------------------------------------

/// The work left for a page that the search has not reached yet.
pub open spec fn weight(ps: Seq<PageView>, v: int) -> nat {
    dep_count(ps, v) + 1
}

/// The total weight of the pages among the first `k` that are neither
/// finished nor on the stack.
pub open spec fn fresh_sum(ps: Seq<PageView>, vis: Seq<bool>, ins: Seq<bool>, k: int) -> nat
    decreases k,
{
    if k <= 0 {
        0
    } else {
        fresh_sum(ps, vis, ins, k - 1) + if !vis[k - 1] && !ins[k - 1] {
            weight(ps, k - 1)
        } else {
            0
        }
    }
}

/// The work left on the stack: each frame's pending dependencies, plus one.
pub open spec fn frame_sum(st: Seq<(usize, Vec<usize>)>) -> nat
    decreases st.len(),
{
    if st.len() == 0 {
        0
    } else {
        frame_sum(st.drop_last()) + st.last().1@.len() + 1
    }
}

/// The number of finished pages among the first `k`.
pub open spec fn vis_count(vis: Seq<bool>, k: int) -> nat
    decreases k,
{
    if k <= 0 {
        0
    } else {
        vis_count(vis, k - 1) + if vis[k - 1] {
            1nat
        } else {
            0nat
        }
    }
}

proof fn lemma_fresh_sum_flip(
    ps: Seq<PageView>,
    v1: Seq<bool>,
    i1: Seq<bool>,
    v2: Seq<bool>,
    i2: Seq<bool>,
    d: int,
    k: int,
)
    requires
        0 <= d < k <= v1.len(),
        k <= i1.len(),
        k <= v2.len(),
        k <= i2.len(),
        forall|j: int| 0 <= j < k && j != d ==> (!v1[j] && !i1[j]) == (!v2[j] && !i2[j]),
        !v1[d] && !i1[d],
        !(!v2[d] && !i2[d]),
    ensures
        fresh_sum(ps, v2, i2, k) + weight(ps, d) == fresh_sum(ps, v1, i1, k),
    decreases k,
{
    if k - 1 > d {
        lemma_fresh_sum_flip(ps, v1, i1, v2, i2, d, k - 1);
    } else {
        lemma_fresh_sum_same(ps, v1, i1, v2, i2, k - 1);
    }
}

proof fn lemma_fresh_sum_same(
    ps: Seq<PageView>,
    v1: Seq<bool>,
    i1: Seq<bool>,
    v2: Seq<bool>,
    i2: Seq<bool>,
    k: int,
)
    requires
        forall|j: int| 0 <= j < k ==> (!v1[j] && !i1[j]) == (!v2[j] && !i2[j]),
    ensures
        fresh_sum(ps, v1, i1, k) == fresh_sum(ps, v2, i2, k),
    decreases k,
{
    if k > 0 {
        lemma_fresh_sum_same(ps, v1, i1, v2, i2, k - 1);
    }
}

proof fn lemma_vis_count_flip(vis: Seq<bool>, d: int, k: int)
    requires
        0 <= d < k <= vis.len(),
        !vis[d],
    ensures
        vis_count(vis.update(d, true), k) == vis_count(vis, k) + 1,
    decreases k,
{
    if k - 1 > d {
        lemma_vis_count_flip(vis, d, k - 1);
    } else {
        lemma_vis_count_same(vis, vis.update(d, true), k - 1);
    }
}

proof fn lemma_vis_count_same(a: Seq<bool>, b: Seq<bool>, k: int)
    requires
        forall|j: int| 0 <= j < k ==> a[j] == b[j],
    ensures
        vis_count(a, k) == vis_count(b, k),
    decreases k,
{
    if k > 0 {
        lemma_vis_count_same(a, b, k - 1);
    }
}

proof fn lemma_vis_count_none(vis: Seq<bool>, k: int)
    requires
        0 <= k <= vis.len(),
        forall|j: int| 0 <= j < k ==> !vis[j],
    ensures
        vis_count(vis, k) == 0,
    decreases k,
{
    if k > 0 {
        lemma_vis_count_none(vis, k - 1);
    }
}

proof fn lemma_vis_count_all(vis: Seq<bool>, k: int)
    requires
        0 <= k <= vis.len(),
        forall|j: int| 0 <= j < k ==> vis[j],
    ensures
        vis_count(vis, k) == k,
    decreases k,
{
    if k > 0 {
        lemma_vis_count_all(vis, k - 1);
    }
}

proof fn lemma_frame_sum_push(st: Seq<(usize, Vec<usize>)>, f: (usize, Vec<usize>))
    ensures
        frame_sum(st.push(f)) == frame_sum(st) + f.1@.len() + 1,
{
    assert(st.push(f).drop_last() =~= st);
}

/// The stack is a chain, so a lower frame's page reaches a higher one's.
proof fn lemma_stack_reaches(ps: Seq<PageView>, st: Seq<(usize, Vec<usize>)>, a: int, b: int)
    requires
        0 <= a <= b < st.len(),
        forall|t: int|
            0 <= t < st.len() - 1 ==> depends_on(ps, (#[trigger] st[t]).0 as int, st[t + 1].0 as int),
    ensures
        reaches(ps, st[a].0 as int, st[b].0 as int),
{
    let c = Seq::new((b - a + 1) as nat, |q: int| st[a + q].0 as int);
    assert forall|t: int| 0 <= t < c.len() - 1 implies depends_on(ps, #[trigger] c[t], c[t + 1]) by {
        assert(st[a + t + 1] == st[(a + t) + 1]);
    }
    assert(is_chain(ps, c) && c[0] == st[a].0 as int && c.last() == st[b].0 as int);
}


fn all_false(n: usize) -> (v: Vec<bool>)
    ensures
        v@.len() == n,
        forall|j: int| 0 <= j < n ==> !v@[j],
{
    let mut v: Vec<bool> = Vec::new();
    let mut i: usize = 0;
    while i < n
        invariant
            i <= n,
            v@.len() == i,
            forall|j: int| 0 <= j < i ==> !v@[j],
        decreases n - i,
    {
        v.push(false);
        i = i + 1;
    }
    v
}

/// What the search keeps of the finished pages: `order` lists them once
/// each, and each comes after what it depends on unless that leads back to it.
pub open spec fn order_inv(ps: Seq<PageView>, vis: Seq<bool>, order: Seq<usize>) -> bool {
    &&& vis.len() == ps.len()
    &&& order.len() == vis_count(vis, ps.len() as int)
    &&& forall|i: int| 0 <= i < order.len() ==> #[trigger] order[i] < ps.len() && vis[order[i] as int]
    &&& forall|i: int, j: int| 0 <= i < j < order.len() ==> order[i] != order[j]
    &&& forall|v: int|
        0 <= v < ps.len() && #[trigger] vis[v] ==> exists|i: int| 0 <= i < order.len() && order[i] == v
    &&& forall|i: int, d: int|
        0 <= i < order.len() && #[trigger] depends_on(ps, order[i] as int, d) ==> (exists|j: int|
            0 <= j < i && order[j] == d) || reaches(ps, d, order[i] as int)
}

/// What the search keeps of its stack: distinct unfinished pages, marked as
/// on the stack, forming a chain; each frame's pending dependencies are a
/// prefix of all of them (`full`), and each handled one is finished, leads
/// back to the frame's page, or is the page of the frame above.
pub open spec fn stack_inv(
    ps: Seq<PageView>,
    vis: Seq<bool>,
    ins: Seq<bool>,
    st: Seq<(usize, Vec<usize>)>,
    full: Seq<Seq<usize>>,
) -> bool {
    &&& vis.len() == ps.len()
    &&& ins.len() == ps.len()
    &&& full.len() == st.len()
    &&& forall|t: int|
        0 <= t < st.len() ==> (#[trigger] st[t]).0 < ps.len() && ins[st[t].0 as int] && !vis[st[t].0 as int]
    &&& forall|v: int| 0 <= v < ps.len() && #[trigger] ins[v] ==> exists|t: int| 0 <= t < st.len() && st[t].0 == v
    &&& forall|t: int, u: int| 0 <= t < u < st.len() ==> st[t].0 != st[u].0
    &&& forall|t: int|
        0 <= t < st.len() - 1 ==> depends_on(ps, (#[trigger] st[t]).0 as int, st[t + 1].0 as int)
    &&& forall|t: int|
        0 <= t < st.len() ==> {
            &&& (#[trigger] st[t]).1@.len() <= full[t].len()
            &&& st[t].1@ == full[t].take(st[t].1@.len() as int)
            &&& full[t].len() == dep_count(ps, st[t].0 as int)
            &&& forall|b: usize| full[t].contains(b) <==> depends_on(ps, st[t].0 as int, b as int)
            &&& forall|k: int| 0 <= k < full[t].len() ==> #[trigger] full[t][k] < ps.len()
        }
    &&& forall|t: int, k: int|
        0 <= t < st.len() && st[t].1@.len() <= k < full[t].len() ==> {
            let d = #[trigger] full[t][k];
            ||| vis[d as int]
            ||| reaches(ps, d as int, st[t].0 as int)
            ||| (t + 1 < st.len() && st[t + 1].0 == d)
        }
}

/// The search's remaining work.
pub open spec fn dfs_measure(
    ps: Seq<PageView>,
    vis: Seq<bool>,
    ins: Seq<bool>,
    st: Seq<(usize, Vec<usize>)>,
) -> nat {
    fresh_sum(ps, vis, ins, ps.len() as int) + frame_sum(st)
}

/// The state of the depth-first search: the finished pages, the pages on the
/// current path, and the finished pages in the order they finished.
pub struct Dfs {
    pub vis: Seq<bool>,
    pub ins: Seq<bool>,
    pub order: Seq<usize>,
}

/// Page `v` finished: off the path, marked finished, and listed.
pub open spec fn finish_page(s: Dfs, v: usize) -> Dfs {
    Dfs { vis: s.vis.update(v as int, true), ins: s.ins.update(v as int, false), order: s.order.push(v) }
}

/// The search from page `v`: it goes on the path, its dependencies that are
/// neither finished nor on the path are searched from the last (highest
/// index) to the first, and then it finishes. `fuel` bounds the depth.
pub open spec fn visit(ps: Seq<PageView>, v: usize, s: Dfs, fuel: nat) -> Dfs
    decreases fuel, 0nat,
{
    if fuel == 0 {
        s
    } else {
        let s1 = Dfs { vis: s.vis, ins: s.ins.update(v as int, true), order: s.order };
        finish_page(visit_deps(ps, deps_spec(ps, v as int), s1, (fuel - 1) as nat), v)
    }
}

/// The search of the dependencies `ds`, from the last to the first.
pub open spec fn visit_deps(ps: Seq<PageView>, ds: Seq<usize>, s: Dfs, fuel: nat) -> Dfs
    decreases fuel, ds.len(),
{
    if ds.len() == 0 {
        s
    } else {
        let d = ds.last();
        let s1 = if !s.vis[d as int] && !s.ins[d as int] {
            visit(ps, d, s, fuel)
        } else {
            s
        };
        visit_deps(ps, ds.drop_last(), s1, fuel)
    }
}

/// The searches from each page from `start` on that is not finished yet.
pub open spec fn dfs_from(ps: Seq<PageView>, s: Dfs, start: int) -> Dfs
    decreases ps.len() - start,
{
    if start < 0 || start >= ps.len() {
        s
    } else if s.vis[start] {
        dfs_from(ps, s, start + 1)
    } else {
        dfs_from(ps, visit(ps, start as usize, s, (ps.len() + 1) as nat), start + 1)
    }
}

/// The order of [`topo_sort`]: a depth-first search from each page in
/// turn, listing a page once all its dependencies are listed (or lead back
/// to it).
pub open spec fn topo_order(ps: Seq<PageView>) -> Seq<usize> {
    dfs_from(
        ps,
        Dfs {
            vis: Seq::new(ps.len(), |i: int| false),
            ins: Seq::new(ps.len(), |i: int| false),
            order: Seq::empty(),
        },
        0,
    ).order
}

/// The frames of the explicit stack, as values.
pub open spec fn abs_stack(st: Seq<(usize, Vec<usize>)>) -> Seq<(usize, Seq<usize>)> {
    st.map_values(|f: (usize, Vec<usize>)| (f.0, f.1@))
}

/// What the search reaches from state `s` once every frame of the stack is
/// done, the top frame first.
pub open spec fn complete(ps: Seq<PageView>, s: Dfs, st: Seq<(usize, Seq<usize>)>) -> Dfs
    decreases st.len(),
{
    if st.len() == 0 {
        s
    } else {
        let t = st.len() - 1;
        complete(
            ps,
            finish_page(visit_deps(ps, st.last().1, s, (ps.len() - t) as nat), st.last().0),
            st.drop_last(),
        )
    }
}

proof fn lemma_complete_finish(ps: Seq<PageView>, s: Dfs, st: Seq<(usize, Seq<usize>)>)
    requires
        st.len() > 0,
        st.last().1.len() == 0,
    ensures
        complete(ps, s, st) == complete(ps, finish_page(s, st.last().0), st.drop_last()),
{
    assert(visit_deps(ps, st.last().1, s, (ps.len() - (st.len() - 1)) as nat) == s);
}

proof fn lemma_complete_descend(ps: Seq<PageView>, s: Dfs, st: Seq<(usize, Seq<usize>)>)
    requires
        0 < st.len() <= ps.len(),
        st.last().1.len() > 0,
    ensures
        ({
            let top = st.len() - 1;
            let v = st[top].0;
            let r = st[top].1;
            let d = r.last();
            let base = st.update(top, (v, r.drop_last()));
            if !s.vis[d as int] && !s.ins[d as int] {
                complete(ps, s, st) == complete(
                    ps,
                    Dfs { vis: s.vis, ins: s.ins.update(d as int, true), order: s.order },
                    base.push((d, deps_spec(ps, d as int))),
                )
            } else {
                complete(ps, s, st) == complete(ps, s, base)
            }
        }),
{
    let top = st.len() - 1;
    let v = st[top].0;
    let r = st[top].1;
    let d = r.last();
    let base = st.update(top, (v, r.drop_last()));
    let f = (ps.len() - top) as nat;
    assert(f >= 1);
    assert(base.drop_last() =~= st.drop_last());
    assert(base.last() == (v, r.drop_last()));
    let s1 = if !s.vis[d as int] && !s.ins[d as int] {
        visit(ps, d, s, f)
    } else {
        s
    };
    assert(visit_deps(ps, r, s, f) == visit_deps(ps, r.drop_last(), s1, f));
    assert(complete(ps, s, st) == complete(ps, finish_page(visit_deps(ps, r, s, f), v), st.drop_last()));
    assert(complete(ps, s1, base) == complete(ps, finish_page(visit_deps(ps, r.drop_last(), s1, f), v), st.drop_last()));
    if !s.vis[d as int] && !s.ins[d as int] {
        let sd = Dfs { vis: s.vis, ins: s.ins.update(d as int, true), order: s.order };
        let st2 = base.push((d, deps_spec(ps, d as int)));
        assert(st2.drop_last() =~= base);
        assert(st2.last() == (d, deps_spec(ps, d as int)));
        assert(visit(ps, d, s, f) == finish_page(
            visit_deps(ps, deps_spec(ps, d as int), sd, (f - 1) as nat),
            d,
        ));
        assert(complete(ps, sd, st2) == complete(
            ps,
            finish_page(visit_deps(ps, deps_spec(ps, d as int), sd, (ps.len() - (top + 1)) as nat), d),
            base,
        ));
    }
}

/// A stack of distinct pages is no taller than the number of pages.
proof fn lemma_stack_height(ps: Seq<PageView>, st: Seq<(usize, Vec<usize>)>)
    requires
        forall|t: int| 0 <= t < st.len() ==> (#[trigger] st[t]).0 < ps.len(),
        forall|t: int, u: int| 0 <= t < u < st.len() ==> st[t].0 != st[u].0,
    ensures
        st.len() <= ps.len(),
{
    let nodes = Seq::new(st.len(), |t: int| st[t].0 as int);
    assert forall|t: int, u: int| 0 <= t < nodes.len() && 0 <= u < nodes.len() && t != u implies nodes[t]
        != nodes[u] by {
        if t < u {
            assert(st[t].0 != st[u].0);
        } else {
            assert(st[u].0 != st[t].0);
        }
    }
    assert(nodes.no_duplicates());
    nodes.unique_seq_to_set();
    vstd::set_lib::lemma_int_range(0, ps.len() as int);
    assert(nodes.to_set().subset_of(vstd::set_lib::set_int_range(0, ps.len() as int)));
    vstd::set_lib::lemma_len_subset(nodes.to_set(), vstd::set_lib::set_int_range(0, ps.len() as int));
}

/// Handles the next pending dependency of the top frame: an unreached page
/// is pushed.
#[verifier::spinoff_prover]
#[verifier::rlimit(40)]
fn descend(
    pages: &Vec<Page>,
    visited: &Vec<bool>,
    in_stack: &mut Vec<bool>,
    stack: &mut Vec<(usize, Vec<usize>)>,
    Ghost(full): Ghost<Seq<Seq<usize>>>,
) -> (g: Ghost<Seq<Seq<usize>>>)
    requires
        stack_inv(page_views(pages@), visited@, old(in_stack)@, old(stack)@, full),
        old(stack)@.len() > 0,
        old(stack)@.last().1@.len() > 0,
    ensures
        stack_inv(page_views(pages@), visited@, final(in_stack)@, final(stack)@, g@),
        final(stack)@.len() > 0,
        dfs_measure(page_views(pages@), visited@, final(in_stack)@, final(stack)@) < dfs_measure(
            page_views(pages@),
            visited@,
            old(in_stack)@,
            old(stack)@,
        ),
        forall|v: int| 0 <= v < old(in_stack)@.len() && old(in_stack)@[v] ==> final(in_stack)@[v],
        ({
            let st = abs_stack(old(stack)@);
            let top = st.len() - 1;
            let r = st[top].1;
            let d = r.last();
            let base = st.update(top, (st[top].0, r.drop_last()));
            if !visited@[d as int] && !old(in_stack)@[d as int] {
                &&& final(in_stack)@ == old(in_stack)@.update(d as int, true)
                &&& abs_stack(final(stack)@) == base.push((d, deps_spec(page_views(pages@), d as int)))
            } else {
                &&& final(in_stack)@ == old(in_stack)@
                &&& abs_stack(final(stack)@) == base
            }
        }),
{
    let ghost ps = page_views(pages@);
    let ghost n = ps.len() as int;
    let ghost st0 = stack@;
    let ghost top = (stack@.len() - 1) as int;
    let (idx, mut deps) = stack.pop().unwrap();
    let ghost frame_full = full[top];
    let ghost mut full2 = full.drop_last();
    assert(st0.drop_last() =~= stack@);
    proof {
        lemma_frame_sum_push(stack@, (idx, deps));
    }
    let dep = deps.pop().unwrap();
    assert(dep == frame_full[deps@.len() as int]);
    assert(deps@ =~= frame_full.take(deps@.len() as int));
    assert(frame_full.contains(dep));
    proof {
        lemma_frame_sum_push(stack@, (idx, deps));
        full2 = full2.push(frame_full);
    }
    stack.push((idx, deps));
    let ghost st1 = stack@;
    let ghost ins1 = in_stack@;
    assert forall|t: int| 0 <= t < st1.len() implies (#[trigger] st1[t]).0 == st0[t].0 by {}
    let fresh = !visited[dep] && !in_stack[dep];
    if !fresh {
        proof {
            if !visited@[dep as int] {
                assert(in_stack@[dep as int]);
                let t2 = choose|t: int| 0 <= t < st0.len() && st0[t].0 == dep;
                assert(st1[t2].0 == st0[t2].0);
                lemma_stack_reaches(ps, st1, t2, top);
            }
            assert forall|v: int| 0 <= v < n && #[trigger] in_stack@[v] implies exists|t: int|
                0 <= t < st1.len() && st1[t].0 == v by {
                let t = choose|t: int| 0 <= t < st0.len() && st0[t].0 == v;
                assert(st1[t].0 == st0[t].0);
            }
            assert forall|t: int, k: int|
                0 <= t < st1.len() && st1[t].1@.len() <= k < full2[t].len() implies {
                    let d = #[trigger] full2[t][k];
                    ||| visited@[d as int]
                    ||| reaches(ps, d as int, st1[t].0 as int)
                    ||| (t + 1 < st1.len() && st1[t + 1].0 == d)
                } by {
                if t < top {
                    assert(st1[t] == st0[t]);
                    assert(st1[t + 1].0 == st0[t + 1].0);
                }
            }
        }
        Ghost(full2)
    } else {
        let dd = deps_of(pages, dep);
        proof {
            lemma_fresh_sum_flip(
                ps,
                visited@,
                in_stack@,
                visited@,
                in_stack@.update(dep as int, true),
                dep as int,
                n,
            );
            lemma_frame_sum_push(stack@, (dep, dd));
            full2 = full2.push(dd@);
        }
        in_stack.set(dep, true);
        stack.push((dep, dd));
        assert(stack@ == st1.push(stack@[top + 1]));
        proof {
            assert(stack@[top + 1].1@ =~= full2[top + 1].take(stack@[top + 1].1@.len() as int));
            assert forall|v: int| 0 <= v < n && #[trigger] in_stack@[v] implies exists|t: int|
                0 <= t < stack@.len() && stack@[t].0 == v by {
                if v != dep {
                    assert(ins1[v]);
                    let t = choose|t: int| 0 <= t < st0.len() && st0[t].0 == v;
                    assert(stack@[t].0 == st0[t].0);
                } else {
                    assert(stack@[top + 1].0 == v);
                }
            }
            assert forall|t: int, k: int|
                0 <= t < stack@.len() && stack@[t].1@.len() <= k < full2[t].len() implies {
                    let d = #[trigger] full2[t][k];
                    ||| visited@[d as int]
                    ||| reaches(ps, d as int, stack@[t].0 as int)
                    ||| (t + 1 < stack@.len() && stack@[t + 1].0 == d)
                } by {
                if t < top {
                    assert(stack@[t] == st0[t]);
                    assert(stack@[t + 1].0 == st0[t + 1].0);
                } else if t == top {
                    assert(stack@[t] == st1[t]);
                }
            }
        }
        Ghost(full2)
    }
}

/// Finishes the top frame, whose dependencies have all been handled.
#[verifier::spinoff_prover]
#[verifier::rlimit(40)]
fn finish(
    visited: &mut Vec<bool>,
    in_stack: &mut Vec<bool>,
    order: &mut Vec<usize>,
    stack: &mut Vec<(usize, Vec<usize>)>,
    Ghost(ps): Ghost<Seq<PageView>>,
    Ghost(full): Ghost<Seq<Seq<usize>>>,
) -> (g: Ghost<Seq<Seq<usize>>>)
    requires
        ps.len() <= usize::MAX,
        order_inv(ps, old(visited)@, old(order)@),
        stack_inv(ps, old(visited)@, old(in_stack)@, old(stack)@, full),
        old(stack)@.len() > 0,
        old(stack)@.last().1@.len() == 0,
    ensures
        order_inv(ps, final(visited)@, final(order)@),
        stack_inv(ps, final(visited)@, final(in_stack)@, final(stack)@, g@),
        dfs_measure(ps, final(visited)@, final(in_stack)@, final(stack)@) < dfs_measure(
            ps,
            old(visited)@,
            old(in_stack)@,
            old(stack)@,
        ),
        forall|v: int| 0 <= v < old(visited)@.len() && old(visited)@[v] ==> final(visited)@[v],
        forall|v: int|
            0 <= v < old(in_stack)@.len() && old(in_stack)@[v] ==> final(visited)@[v] || final(in_stack)@[v],
        ({
            let st = abs_stack(old(stack)@);
            let v = st.last().0;
            &&& final(visited)@ == old(visited)@.update(v as int, true)
            &&& final(in_stack)@ == old(in_stack)@.update(v as int, false)
            &&& final(order)@ == old(order)@.push(v)
            &&& abs_stack(final(stack)@) == st.drop_last()
        }),
{
    let ghost n = ps.len() as int;
    let ghost st0 = stack@;
    let ghost top = (stack@.len() - 1) as int;
    let (idx, deps) = stack.pop().unwrap();
    let ghost frame_full = full[top];
    let ghost full2 = full.drop_last();
    assert(st0.drop_last() =~= stack@);
    proof {
        lemma_frame_sum_push(stack@, (idx, deps));
    }
    let ghost vis1 = visited@;
    let ghost ins1 = in_stack@;
    let ghost ord1 = order@;
    proof {
        lemma_vis_count_flip(visited@, idx as int, n);
        lemma_fresh_sum_same(
            ps,
            visited@,
            in_stack@,
            visited@.update(idx as int, true),
            in_stack@.update(idx as int, false),
            n,
        );
    }
    visited.set(idx, true);
    in_stack.set(idx, false);
    order.push(idx);
    proof {
        assert forall|d: int| depends_on(ps, idx as int, d) implies (exists|j: int|
            0 <= j < ord1.len() && order@[j] == d) || reaches(ps, d, idx as int) by {
            lemma_depends_range(ps, idx as int, d);
            let b = d as usize;
            assert(st0[top].0 == idx);
            assert(st0[top].1@.len() <= full[top].len());
            assert(depends_on(ps, st0[top].0 as int, b as int));
            assert(frame_full.contains(b));
            let k = choose|k: int| 0 <= k < frame_full.len() && frame_full[k] == b;
            if vis1[d] {
                let j = choose|j: int| 0 <= j < ord1.len() && ord1[j] == d;
                assert(order@[j] == d);
            }
        }
        assert forall|i: int, d: int|
            0 <= i < order@.len() && #[trigger] depends_on(ps, order@[i] as int, d) implies (exists|j: int|
                0 <= j < i && order@[j] == d) || reaches(ps, d, order@[i] as int) by {
            if i < ord1.len() {
                assert(order@[i] == ord1[i]);
                if exists|j: int| 0 <= j < i && ord1[j] == d {
                    let j = choose|j: int| 0 <= j < i && ord1[j] == d;
                    assert(order@[j] == d);
                }
            }
        }
        assert forall|v: int| 0 <= v < n && #[trigger] visited@[v] implies exists|i: int|
            0 <= i < order@.len() && order@[i] == v by {
            if v != idx {
                assert(vis1[v]);
                let i = choose|i: int| 0 <= i < ord1.len() && ord1[i] == v;
                assert(order@[i] == v);
            } else {
                assert(order@[ord1.len() as int] == v);
            }
        }
        assert forall|v: int| 0 <= v < n && #[trigger] in_stack@[v] implies exists|t: int|
            0 <= t < stack@.len() && stack@[t].0 == v by {
            assert(ins1[v]);
            let t = choose|t: int| 0 <= t < st0.len() && st0[t].0 == v;
            assert(t != top);
            assert(stack@[t] == st0[t]);
        }
        assert forall|t: int, k: int|
            0 <= t < stack@.len() && stack@[t].1@.len() <= k < full2[t].len() implies {
                let d = #[trigger] full2[t][k];
                ||| visited@[d as int]
                ||| reaches(ps, d as int, stack@[t].0 as int)
                ||| (t + 1 < stack@.len() && stack@[t + 1].0 == d)
            } by {
            assert(stack@[t] == st0[t]);
        }
    }
    Ghost(full2)
}

// ---------------------------------------------------------------------------
// Groups
// ---------------------------------------------------------------------------

/// The groups of the pages listed in `t`, in that order: each group in the
/// order of its first page, with its pages in the order of `t`.
pub open spec fn group_fold(ps: Seq<PageView>, t: Seq<usize>) -> Seq<(Seq<char>, Seq<usize>)>
    decreases t.len(),
{
    if t.len() == 0 {
        Seq::empty()
    } else {
        group_added(group_fold(ps, t.drop_last()), ps[t.last() as int].group, t.last())
    }
}

/// No two entries have the same key.
pub open spec fn distinct_keys(es: Seq<(Seq<char>, Seq<usize>)>) -> bool {
    forall|i: int, j: int| 0 <= i < j < es.len() ==> es[i].0 != es[j].0
}

/// Entries in ascending order of key.
pub open spec fn keys_ascending(es: Seq<(Seq<char>, Seq<usize>)>) -> bool {
    forall|i: int, j: int| 0 <= i < j < es.len() ==> text_le(es[i].0, es[j].0)
}

proof fn lemma_key_pos(es: Seq<(Seq<char>, Seq<usize>)>, k: Seq<char>)
    ensures
        -1 <= key_pos(es, k) < es.len(),
        key_pos(es, k) >= 0 ==> es[key_pos(es, k)].0 == k,
        key_pos(es, k) < 0 ==> forall|j: int| 0 <= j < es.len() ==> es[j].0 != k,
    decreases es.len(),
{
    if es.len() > 0 {
        lemma_key_pos(es.drop_last(), k);
        if key_pos(es.drop_last(), k) >= 0 {
            assert(es[key_pos(es, k)] == es.drop_last()[key_pos(es, k)]);
        } else {
            assert forall|j: int| 0 <= j < es.len() - 1 implies es[j].0 != k by {
                assert(es[j] == es.drop_last()[j]);
            }
        }
    }
}

proof fn lemma_group_fold_distinct(ps: Seq<PageView>, t: Seq<usize>)
    requires
        forall|i: int| 0 <= i < t.len() ==> #[trigger] t[i] < ps.len(),
    ensures
        distinct_keys(group_fold(ps, t)),
    decreases t.len(),
{
    if t.len() > 0 {
        lemma_group_fold_distinct(ps, t.drop_last());
        let es = group_fold(ps, t.drop_last());
        lemma_key_pos(es, ps[t.last() as int].group);
    }
}

/// Every page index in the entries is below `n`.
pub open spec fn entries_in_range(es: Seq<(Seq<char>, Seq<usize>)>, n: int) -> bool {
    forall|g: int, k: int| 0 <= g < es.len() && 0 <= k < es[g].1.len() ==> (#[trigger] es[g].1[k]) < n
}

proof fn lemma_group_fold_range(ps: Seq<PageView>, t: Seq<usize>, n: int)
    requires
        forall|i: int| 0 <= i < t.len() ==> #[trigger] t[i] < n,
    ensures
        entries_in_range(group_fold(ps, t), n),
    decreases t.len(),
{
    if t.len() > 0 {
        lemma_group_fold_range(ps, t.drop_last(), n);
        let es = group_fold(ps, t.drop_last());
        let k = ps[t.last() as int].group;
        lemma_key_pos(es, k);
        let es2 = group_fold(ps, t);
        assert forall|g: int, j: int| 0 <= g < es2.len() && 0 <= j < es2[g].1.len() implies (
        #[trigger] es2[g].1[j]) < n by {
            if key_pos(es, k) >= 0 && g == key_pos(es, k) && j == es[g].1.len() {
            } else if key_pos(es, k) < 0 && g == es.len() {
            } else {
                assert(es2[g].1[j] == es[g].1[j]);
            }
        }
    }
}

proof fn lemma_entries_range_transfer(
    a: Seq<(Seq<char>, Seq<usize>)>,
    b: Seq<(Seq<char>, Seq<usize>)>,
    n: int,
)
    requires
        a.to_multiset() == b.to_multiset(),
        entries_in_range(b, n),
    ensures
        entries_in_range(a, n),
{
    assert forall|g: int, k: int| 0 <= g < a.len() && 0 <= k < a[g].1.len() implies (
    #[trigger] a[g].1[k]) < n by {
        vstd::seq_lib::to_multiset_contains(a, a[g]);
        vstd::seq_lib::to_multiset_contains(b, a[g]);
        assert(a.contains(a[g]));
        let h = choose|h: int| 0 <= h < b.len() && b[h] == a[g];
        assert(b[h].1[k] < n);
    }
}

/// Groups the pages listed in `order`, then sorts the groups by name.
pub fn group_pages(pages: &Vec<Page>, order: &Vec<usize>) -> (r: IndexMap<String, Vec<usize>>)
    requires
        forall|i: int| 0 <= i < order@.len() ==> #[trigger] order@[i] < pages@.len(),
    ensures
        group_entries(r) == sorted_groups(group_fold(page_views(pages@), order@)),
        group_entries(r).to_multiset() == group_fold(page_views(pages@), order@).to_multiset(),
        keys_ascending(group_entries(r)),
        distinct_keys(group_fold(page_views(pages@), order@)),
        entries_in_range(group_entries(r), pages@.len() as int),
{
    let ghost ps = page_views(pages@);
    let mut groups = new_groups();
    let mut i: usize = 0;
    while i < order.len()
        invariant
            i <= order.len(),
            ps == page_views(pages@),
            forall|j: int| 0 <= j < order@.len() ==> #[trigger] order@[j] < pages@.len(),
            group_entries(groups) == group_fold(ps, order@.take(i as int)),
        decreases order.len() - i,
    {
        let idx = order[i];
        assert(order@.take(i + 1).drop_last() =~= order@.take(i as int));
        add_to_group(&mut groups, pages[idx].group.clone(), idx);
        i = i + 1;
    }
    assert(order@.take(order@.len() as int) =~= order@);
    sort_groups(&mut groups);
    proof {
        lemma_group_fold_distinct(ps, order@);
        lemma_group_fold_range(ps, order@, pages@.len() as int);
        lemma_entries_range_transfer(group_entries(groups), group_fold(ps, order@), pages@.len() as int);
        lemma_sorted_groups(group_fold(ps, order@));
        lemma_sorted_unique(group_entries(groups), sorted_groups(group_fold(ps, order@)), group_fold(ps, order@));
    }
    groups
}

/// Page `v` is listed in one of the groups.
pub open spec fn in_some_group(es: Seq<(Seq<char>, Seq<usize>)>, v: int) -> bool {
    exists|g: int, j: int| 0 <= g < es.len() && 0 <= j < es[g].1.len() && es[g].1[j] == v
}

/// Every listed page belongs to the group it is listed under.
pub open spec fn groups_match(ps: Seq<PageView>, es: Seq<(Seq<char>, Seq<usize>)>) -> bool {
    forall|g: int, j: int|
        0 <= g < es.len() && 0 <= j < es[g].1.len() ==> ps[(#[trigger] es[g].1[j]) as int].group
            == es[g].0
}

proof fn lemma_group_fold_members(ps: Seq<PageView>, t: Seq<usize>)
    requires
        forall|i: int| 0 <= i < t.len() ==> #[trigger] t[i] < ps.len(),
    ensures
        groups_match(ps, group_fold(ps, t)),
        forall|i: int| 0 <= i < t.len() ==> in_some_group(group_fold(ps, t), #[trigger] t[i] as int),
    decreases t.len(),
{
    if t.len() > 0 {
        lemma_group_fold_members(ps, t.drop_last());
        let es = group_fold(ps, t.drop_last());
        let x = t.last();
        let k = ps[x as int].group;
        lemma_key_pos(es, k);
        let p = key_pos(es, k);
        let es2 = group_fold(ps, t);
        assert(es2 == group_added(es, k, x));
        assert forall|g: int, j: int| 0 <= g < es2.len() && 0 <= j < es2[g].1.len() implies ps[(
        #[trigger] es2[g].1[j]) as int].group == es2[g].0 by {
            if p >= 0 && g == p && j == es[p].1.len() {
            } else if p < 0 && g == es.len() {
            } else {
                assert(es2[g].1[j] == es[g].1[j]);
                assert(es2[g].0 == es[g].0);
            }
        }
        assert forall|i: int| 0 <= i < t.len() implies in_some_group(es2, #[trigger] t[i] as int) by {
            if i < t.len() - 1 {
                assert(t.drop_last()[i] == t[i]);
                assert(in_some_group(es, t.drop_last()[i] as int));
                let (g, j) = choose|g: int, j: int|
                    0 <= g < es.len() && 0 <= j < es[g].1.len() && es[g].1[j] == t[i] as int;
                assert(es2[g].1[j] == es[g].1[j]);
            } else if p >= 0 {
                assert(es2[p].1[es[p].1.len() as int] == x);
            } else {
                assert(es2[es.len() as int].1[0] == x);
            }
        }
    }
}

/// Within each group, earlier pages come earlier in `t`.
pub open spec fn follows_order(es: Seq<(Seq<char>, Seq<usize>)>, t: Seq<usize>) -> bool {
    forall|g: int, j1: int, j2: int|
        0 <= g < es.len() && 0 <= j1 < j2 < es[g].1.len() ==> exists|i1: int, i2: int|
            0 <= i1 < i2 < t.len() && t[i1] == #[trigger] es[g].1[j1] && t[i2] == #[trigger] es[g].1[j2]
}

proof fn lemma_group_fold_order(ps: Seq<PageView>, t: Seq<usize>)
    requires
        forall|i: int| 0 <= i < t.len() ==> #[trigger] t[i] < ps.len(),
    ensures
        follows_order(group_fold(ps, t), t),
        forall|g: int, j: int|
            0 <= g < group_fold(ps, t).len() && 0 <= j < group_fold(ps, t)[g].1.len() ==> exists|i: int|
                0 <= i < t.len() && t[i] == #[trigger] group_fold(ps, t)[g].1[j],
    decreases t.len(),
{
    if t.len() > 0 {
        let d = t.drop_last();
        lemma_group_fold_order(ps, d);
        let es = group_fold(ps, d);
        let x = t.last();
        let k = ps[x as int].group;
        lemma_key_pos(es, k);
        let p = key_pos(es, k);
        let es2 = group_fold(ps, t);
        assert(es2 == group_added(es, k, x));
        assert forall|g: int, j: int| 0 <= g < es2.len() && 0 <= j < es2[g].1.len() implies exists|i: int|
            0 <= i < t.len() && t[i] == #[trigger] es2[g].1[j] by {
            if (p >= 0 && g == p && j == es[p].1.len()) || (p < 0 && g == es.len()) {
                assert(t[t.len() - 1] == es2[g].1[j]);
            } else {
                assert(es2[g].1[j] == es[g].1[j]);
                let i = choose|i: int| 0 <= i < d.len() && d[i] == es[g].1[j];
                assert(t[i] == d[i]);
            }
        }
        assert forall|g: int, j1: int, j2: int|
            0 <= g < es2.len() && 0 <= j1 < j2 < es2[g].1.len() implies exists|i1: int, i2: int|
            0 <= i1 < i2 < t.len() && t[i1] == #[trigger] es2[g].1[j1] && t[i2] == #[trigger] es2[g].1[j2] by {
            if p >= 0 && g == p && j2 == es[p].1.len() {
                assert(es2[g].1[j1] == es[g].1[j1]);
                let i1 = choose|i: int| 0 <= i < d.len() && d[i] == es[g].1[j1];
                assert(t[i1] == d[i1]);
                assert(t[t.len() - 1] == es2[g].1[j2]);
            } else if p < 0 && g == es.len() {
            } else {
                assert(es2[g].1[j1] == es[g].1[j1]);
                assert(es2[g].1[j2] == es[g].1[j2]);
                let (i1, i2) = choose|i1: int, i2: int|
                    0 <= i1 < i2 < d.len() && d[i1] == es[g].1[j1] && d[i2] == es[g].1[j2];
                assert(t[i1] == d[i1] && t[i2] == d[i2]);
            }
        }
    }
}

/// Within each group of a grouping, a page imports a page listed after it
/// only where that page depends back on it (an import cycle).
pub proof fn lemma_grouping_dependencies_first(ps: Seq<PageView>, es: Seq<(Seq<char>, Seq<usize>)>)
    requires
        is_grouping(ps, es),
    ensures
        forall|g: int, j1: int, j2: int|
            0 <= g < es.len() && 0 <= j1 < j2 < es[g].1.len() && depends_on(
                ps,
                #[trigger] es[g].1[j1] as int,
                #[trigger] es[g].1[j2] as int,
            ) ==> reaches(ps, es[g].1[j2] as int, es[g].1[j1] as int),
{
    let t = choose|t: Seq<usize>|
        #![trigger group_fold(ps, t)]
        is_page_order(ps, t) && dependencies_first(ps, t) && es.to_multiset() == group_fold(
            ps,
            t,
        ).to_multiset() && distinct_keys(group_fold(ps, t));
    let f = group_fold(ps, t);
    lemma_group_fold_order(ps, t);
    assert forall|g: int, j1: int, j2: int|
        0 <= g < es.len() && 0 <= j1 < j2 < es[g].1.len() && depends_on(
            ps,
            #[trigger] es[g].1[j1] as int,
            #[trigger] es[g].1[j2] as int,
        ) implies reaches(ps, es[g].1[j2] as int, es[g].1[j1] as int) by {
        vstd::seq_lib::to_multiset_contains(es, es[g]);
        vstd::seq_lib::to_multiset_contains(f, es[g]);
        assert(es.contains(es[g]));
        let h = choose|h: int| 0 <= h < f.len() && f[h] == es[g];
        assert(f[h].1[j1] == es[g].1[j1] && f[h].1[j2] == es[g].1[j2]);
        let (i1, i2) = choose|i1: int, i2: int|
            0 <= i1 < i2 < t.len() && t[i1] == f[h].1[j1] && t[i2] == f[h].1[j2];
        assert(depends_on(ps, t[i1] as int, t[i2] as int));
    }
}

/// No page is listed twice, in one group or in two.
pub open spec fn listed_once(es: Seq<(Seq<char>, Seq<usize>)>) -> bool {
    forall|g1: int, j1: int, g2: int, j2: int|
        0 <= g1 < es.len() && 0 <= j1 < es[g1].1.len() && 0 <= g2 < es.len() && 0 <= j2
            < es[g2].1.len() && #[trigger] es[g1].1[j1] == #[trigger] es[g2].1[j2] ==> g1 == g2 && j1
            == j2
}

proof fn lemma_group_fold_once(ps: Seq<PageView>, t: Seq<usize>)
    requires
        forall|i: int| 0 <= i < t.len() ==> #[trigger] t[i] < ps.len(),
        forall|i: int, j: int| 0 <= i < j < t.len() ==> t[i] != t[j],
    ensures
        listed_once(group_fold(ps, t)),
    decreases t.len(),
{
    if t.len() > 0 {
        let d = t.drop_last();
        lemma_group_fold_once(ps, d);
        lemma_group_fold_order(ps, d);
        let es = group_fold(ps, d);
        let x = t.last();
        let k = ps[x as int].group;
        lemma_key_pos(es, k);
        let p = key_pos(es, k);
        let es2 = group_fold(ps, t);
        assert(es2 == group_added(es, k, x));
        let is_new = |g: int, j: int| (p >= 0 && g == p && j == es[p].1.len()) || (p < 0 && g == es.len());
        assert forall|g: int, j: int| 0 <= g < es2.len() && 0 <= j < es2[g].1.len() && !is_new(g, j) implies
            es2[g].1[j] == es[g].1[j] && es2[g].1[j] != x by {
            assert(es2[g].1[j] == es[g].1[j]);
            let i = choose|i: int| 0 <= i < d.len() && d[i] == es[g].1[j];
            assert(t[i] == d[i]);
            assert(t[i] != t[t.len() - 1]);
        }
        assert forall|g1: int, j1: int, g2: int, j2: int|
            0 <= g1 < es2.len() && 0 <= j1 < es2[g1].1.len() && 0 <= g2 < es2.len() && 0 <= j2
                < es2[g2].1.len() && #[trigger] es2[g1].1[j1] == #[trigger] es2[g2].1[j2] implies g1 == g2
            && j1 == j2 by {
            if is_new(g1, j1) && is_new(g2, j2) {
            } else if is_new(g1, j1) {
                assert(es2[g2].1[j2] != x);
            } else if is_new(g2, j2) {
                assert(es2[g1].1[j1] != x);
            } else {
                assert(es[g1].1[j1] == es[g2].1[j2]);
            }
        }
    }
}

proof fn lemma_no_dup_transfer(
    a: Seq<(Seq<char>, Seq<usize>)>,
    f: Seq<(Seq<char>, Seq<usize>)>,
)
    requires
        a.to_multiset() == f.to_multiset(),
        distinct_keys(f),
    ensures
        a.no_duplicates(),
        distinct_keys(a),
{
    assert(f.no_duplicates()) by {
        assert forall|i: int, j: int| 0 <= i < f.len() && 0 <= j < f.len() && i != j implies f[i]
            != f[j] by {
            if i < j {
                assert(f[i].0 != f[j].0);
            } else {
                assert(f[j].0 != f[i].0);
            }
        }
    }
    f.lemma_multiset_has_no_duplicates();
    a.lemma_multiset_has_no_duplicates_conv();
    assert forall|i: int, j: int| 0 <= i < j < a.len() implies a[i].0 != a[j].0 by {
        if a[i].0 == a[j].0 {
            vstd::seq_lib::to_multiset_contains(a, a[i]);
            vstd::seq_lib::to_multiset_contains(f, a[i]);
            vstd::seq_lib::to_multiset_contains(a, a[j]);
            vstd::seq_lib::to_multiset_contains(f, a[j]);
            assert(a.contains(a[i]) && a.contains(a[j]));
            let h1 = choose|h: int| 0 <= h < f.len() && f[h] == a[i];
            let h2 = choose|h: int| 0 <= h < f.len() && f[h] == a[j];
            if h1 < h2 {
                assert(f[h1].0 != f[h2].0);
            } else if h2 < h1 {
                assert(f[h2].0 != f[h1].0);
            }
            assert(a[i] == a[j]);
        }
    }
}

/// Within each group of the sidebar's grouping, the pages keep their order
/// in [`topo_order`]: of two pages listed in a group, the earlier one comes
/// earlier in that order.
pub proof fn lemma_page_groups_follow_topo(ps: Seq<PageView>, g: int, j1: int, j2: int)
    requires
        forall|i: int| 0 <= i < topo_order(ps).len() ==> #[trigger] topo_order(ps)[i] < ps.len(),
        0 <= g < page_groups(ps).len(),
        0 <= j1 < j2 < page_groups(ps)[g].1.len(),
    ensures
        exists|i1: int, i2: int|
            0 <= i1 < i2 < topo_order(ps).len() && topo_order(ps)[i1] == page_groups(ps)[g].1[j1]
                && topo_order(ps)[i2] == page_groups(ps)[g].1[j2],
{
    let t = topo_order(ps);
    let f = group_fold(ps, t);
    let es = page_groups(ps);
    lemma_group_fold_order(ps, t);
    lemma_sorted_groups(f);
    vstd::seq_lib::to_multiset_contains(es, es[g]);
    vstd::seq_lib::to_multiset_contains(f, es[g]);
    assert(es.contains(es[g]));
    let h = choose|h: int| 0 <= h < f.len() && f[h] == es[g];
    assert(f[h].1[j1] == es[g].1[j1] && f[h].1[j2] == es[g].1[j2]);
    assert(follows_order(f, t));
    assert(exists|i1: int, i2: int|
        0 <= i1 < i2 < t.len() && t[i1] == #[trigger] f[h].1[j1] && t[i2] == #[trigger] f[h].1[j2]);
    let (i1, i2) = choose|i1: int, i2: int|
        0 <= i1 < i2 < t.len() && t[i1] == f[h].1[j1] && t[i2] == f[h].1[j2];
    assert(t[i1] == es[g].1[j1] && t[i2] == es[g].1[j2]);
}

/// In a grouping of the pages, the group names are distinct (so strictly
/// ascending) and no page is listed twice: with
/// [`lemma_grouping_members`], every page is listed exactly once, under its
/// own group.
pub proof fn lemma_grouping_once(ps: Seq<PageView>, es: Seq<(Seq<char>, Seq<usize>)>)
    requires
        is_grouping(ps, es),
    ensures
        distinct_keys(es),
        listed_once(es),
{
    let t = choose|t: Seq<usize>|
        #![trigger group_fold(ps, t)]
        is_page_order(ps, t) && dependencies_first(ps, t) && es.to_multiset() == group_fold(
            ps,
            t,
        ).to_multiset() && distinct_keys(group_fold(ps, t));
    let f = group_fold(ps, t);
    lemma_group_fold_once(ps, t);
    lemma_no_dup_transfer(es, f);
    assert forall|g1: int, j1: int, g2: int, j2: int|
        0 <= g1 < es.len() && 0 <= j1 < es[g1].1.len() && 0 <= g2 < es.len() && 0 <= j2 < es[g2].1.len()
            && #[trigger] es[g1].1[j1] == #[trigger] es[g2].1[j2] implies g1 == g2 && j1 == j2 by {
        vstd::seq_lib::to_multiset_contains(es, es[g1]);
        vstd::seq_lib::to_multiset_contains(f, es[g1]);
        vstd::seq_lib::to_multiset_contains(es, es[g2]);
        vstd::seq_lib::to_multiset_contains(f, es[g2]);
        assert(es.contains(es[g1]) && es.contains(es[g2]));
        let h1 = choose|h: int| 0 <= h < f.len() && f[h] == es[g1];
        let h2 = choose|h: int| 0 <= h < f.len() && f[h] == es[g2];
        assert(f[h1].1[j1] == f[h2].1[j2]);
        assert(h1 == h2 && j1 == j2);
    }
}

/// In a grouping of the pages, every listed page belongs to the group it is
/// listed under, and every page is listed.
pub proof fn lemma_grouping_members(ps: Seq<PageView>, es: Seq<(Seq<char>, Seq<usize>)>)
    requires
        is_grouping(ps, es),
    ensures
        groups_match(ps, es),
        forall|v: int| 0 <= v < ps.len() ==> #[trigger] in_some_group(es, v),
{
    let t = choose|t: Seq<usize>|
        #![trigger group_fold(ps, t)]
        is_page_order(ps, t) && dependencies_first(ps, t) && es.to_multiset() == group_fold(
            ps,
            t,
        ).to_multiset() && distinct_keys(group_fold(ps, t));
    let f = group_fold(ps, t);
    lemma_group_fold_members(ps, t);
    assert forall|g: int, j: int| 0 <= g < es.len() && 0 <= j < es[g].1.len() implies ps[(
    #[trigger] es[g].1[j]) as int].group == es[g].0 by {
        vstd::seq_lib::to_multiset_contains(es, es[g]);
        vstd::seq_lib::to_multiset_contains(f, es[g]);
        assert(es.contains(es[g]));
        let h = choose|h: int| 0 <= h < f.len() && f[h] == es[g];
        assert(f[h].1[j] == es[g].1[j]);
    }
    assert forall|v: int| 0 <= v < ps.len() implies #[trigger] in_some_group(es, v) by {
        assert(lists(t, v));
        let i = choose|i: int| 0 <= i < t.len() && t[i] == v;
        assert(in_some_group(f, t[i] as int));
        let (h, j) = choose|h: int, j: int| 0 <= h < f.len() && 0 <= j < f[h].1.len() && f[h].1[j] == v;
        vstd::seq_lib::to_multiset_contains(f, f[h]);
        vstd::seq_lib::to_multiset_contains(es, f[h]);
        assert(f.contains(f[h]));
        let g = choose|g: int| 0 <= g < es.len() && es[g] == f[h];
        assert(es[g].1[j] == v);
    }
}

pub(crate) proof fn lemma_text_le_refl(a: Seq<char>)
    ensures
        text_le(a, a),
    decreases a.len(),
{
    if a.len() > 0 {
        lemma_text_le_refl(a.drop_first());
    }
}

pub(crate) proof fn lemma_text_le_total(a: Seq<char>, b: Seq<char>)
    ensures
        text_le(a, b) || text_le(b, a),
    decreases a.len(),
{
    if a.len() > 0 && b.len() > 0 {
        if a[0] == b[0] {
            lemma_text_le_total(a.drop_first(), b.drop_first());
        } else {
            vstd::utf8::char_u32_cast(a[0], a[0] as u32);
            vstd::utf8::char_u32_cast(b[0], b[0] as u32);
        }
    }
}

pub(crate) proof fn lemma_text_le_trans(a: Seq<char>, b: Seq<char>, c: Seq<char>)
    requires
        text_le(a, b),
        text_le(b, c),
    ensures
        text_le(a, c),
    decreases a.len(),
{
    if a.len() > 0 && b.len() > 0 && c.len() > 0 && a[0] == b[0] && b[0] == c[0] {
        lemma_text_le_trans(a.drop_first(), b.drop_first(), c.drop_first());
    }
}

pub(crate) proof fn lemma_text_le_antisym(a: Seq<char>, b: Seq<char>)
    requires
        text_le(a, b),
        text_le(b, a),
    ensures
        a == b,
    decreases a.len(),
{
    if a.len() > 0 && b.len() > 0 {
        assert(a[0] == b[0]);
        lemma_text_le_antisym(a.drop_first(), b.drop_first());
        assert(a.len() == a.drop_first().len() + 1 && b.len() == b.drop_first().len() + 1);
        assert(a.len() == b.len());
        assert forall|i: int| 0 <= i < a.len() implies a[i] == b[i] by {
            if i > 0 {
                assert(a[i] == a.drop_first()[i - 1]);
                assert(b[i] == b.drop_first()[i - 1]);
            }
        }
        assert(a =~= b);
    } else {
        assert(a =~= b);
    }
}

/// `e` inserted into `es` after the entries whose key sorts before or with
/// its own.
pub open spec fn insert_group(es: Seq<(Seq<char>, Seq<usize>)>, e: (Seq<char>, Seq<usize>)) -> Seq<
    (Seq<char>, Seq<usize>),
>
    decreases es.len(),
{
    if es.len() == 0 {
        seq![e]
    } else if text_le(es.last().0, e.0) {
        es.push(e)
    } else {
        insert_group(es.drop_last(), e).push(es.last())
    }
}

/// The entries sorted by key.
pub open spec fn sorted_groups(es: Seq<(Seq<char>, Seq<usize>)>) -> Seq<(Seq<char>, Seq<usize>)>
    decreases es.len(),
{
    if es.len() == 0 {
        Seq::empty()
    } else {
        insert_group(sorted_groups(es.drop_last()), es.last())
    }
}

/// The groups of the sidebar: the groups of the pages in [`topo_order`],
/// sorted by name.
pub open spec fn page_groups(ps: Seq<PageView>) -> Seq<(Seq<char>, Seq<usize>)> {
    sorted_groups(group_fold(ps, topo_order(ps)))
}

proof fn lemma_insert_group(es: Seq<(Seq<char>, Seq<usize>)>, e: (Seq<char>, Seq<usize>))
    requires
        keys_ascending(es),
    ensures
        keys_ascending(insert_group(es, e)),
        insert_group(es, e).to_multiset() == es.to_multiset().insert(e),
    decreases es.len(),
{
    broadcast use vstd::seq_lib::group_to_multiset_ensures;

    if es.len() == 0 {
        assert(seq![e] =~= Seq::<(Seq<char>, Seq<usize>)>::empty().push(e));
    } else if text_le(es.last().0, e.0) {
        let r = es.push(e);
        assert forall|i: int, j: int| 0 <= i < j < r.len() implies text_le(r[i].0, r[j].0) by {
            if j == es.len() && i < es.len() - 1 {
                lemma_text_le_trans(es[i].0, es.last().0, e.0);
            }
        }
    } else {
        let d = es.drop_last();
        let last = es.last();
        lemma_insert_group(d, e);
        let r0 = insert_group(d, e);
        let r = r0.push(last);
        lemma_text_le_total(last.0, e.0);
        assert forall|x: (Seq<char>, Seq<usize>)| r0.contains(x) implies text_le(x.0, last.0) by {
            vstd::seq_lib::to_multiset_contains(r0, x);
            if x != e {
                vstd::seq_lib::to_multiset_contains(d, x);
                let i = choose|i: int| 0 <= i < d.len() && d[i] == x;
                assert(es[i] == x);
            }
        }
        assert forall|i: int, j: int| 0 <= i < j < r.len() implies text_le(r[i].0, r[j].0) by {
            if j == r0.len() {
                assert(r0.contains(r[i]));
            } else {
                assert(r[i] == r0[i] && r[j] == r0[j]);
            }
        }
        assert(es =~= d.push(last));
        assert(r.to_multiset() =~= es.to_multiset().insert(e));
    }
}

proof fn lemma_sorted_groups(es: Seq<(Seq<char>, Seq<usize>)>)
    ensures
        keys_ascending(sorted_groups(es)),
        sorted_groups(es).to_multiset() == es.to_multiset(),
    decreases es.len(),
{
    broadcast use vstd::seq_lib::group_to_multiset_ensures;

    if es.len() > 0 {
        lemma_sorted_groups(es.drop_last());
        lemma_insert_group(sorted_groups(es.drop_last()), es.last());
        assert(es =~= es.drop_last().push(es.last()));
    }
}

/// Two key-ordered arrangements of the entries of `f`, whose keys are
/// distinct, are the same.
proof fn lemma_sorted_unique(
    a: Seq<(Seq<char>, Seq<usize>)>,
    b: Seq<(Seq<char>, Seq<usize>)>,
    f: Seq<(Seq<char>, Seq<usize>)>,
)
    requires
        keys_ascending(a),
        keys_ascending(b),
        a.to_multiset() == f.to_multiset(),
        b.to_multiset() == f.to_multiset(),
        distinct_keys(f),
    ensures
        a == b,
    decreases a.len(),
{
    broadcast use vstd::seq_lib::group_to_multiset_ensures;

    assert(a.len() == a.to_multiset().len() && b.len() == b.to_multiset().len());
    if a.len() == 0 {
        assert(a =~= b);
    } else {
        let x = a.last();
        let y = b.last();
        vstd::seq_lib::to_multiset_contains(a, x);
        vstd::seq_lib::to_multiset_contains(f, x);
        vstd::seq_lib::to_multiset_contains(b, x);
        vstd::seq_lib::to_multiset_contains(b, y);
        vstd::seq_lib::to_multiset_contains(f, y);
        vstd::seq_lib::to_multiset_contains(a, y);
        assert(a.contains(x));
        assert(b.contains(y));
        let ja = choose|j: int| 0 <= j < a.len() && a[j] == y;
        let jb = choose|j: int| 0 <= j < b.len() && b[j] == x;
        if ja < a.len() - 1 {
            assert(text_le(a[ja].0, a[a.len() - 1].0));
        } else {
            lemma_text_le_refl(x.0);
        }
        if jb < b.len() - 1 {
            assert(text_le(b[jb].0, b[b.len() - 1].0));
        } else {
            lemma_text_le_refl(y.0);
        }
        lemma_text_le_antisym(x.0, y.0);
        let h1 = choose|h: int| 0 <= h < f.len() && f[h] == x;
        let h2 = choose|h: int| 0 <= h < f.len() && f[h] == y;
        if h1 != h2 {
            if h1 < h2 {
                assert(f[h1].0 != f[h2].0);
            } else {
                assert(f[h2].0 != f[h1].0);
            }
        }
        assert(x == y);
        let f2 = f.remove(h1);
        assert(f2.to_multiset() =~= f.to_multiset().remove(x));
        assert(a =~= a.drop_last().push(x));
        assert(b =~= b.drop_last().push(x));
        assert(a.drop_last().to_multiset() =~= f2.to_multiset());
        assert(b.drop_last().to_multiset() =~= f2.to_multiset());
        assert forall|i: int, j: int| 0 <= i < j < f2.len() implies f2[i].0 != f2[j].0 by {
            let i0 = if i < h1 { i } else { i + 1 };
            let j0 = if j < h1 { j } else { j + 1 };
            assert(f2[i] == f[i0] && f2[j] == f[j0]);
        }
        lemma_sorted_unique(a.drop_last(), b.drop_last(), f2);
    }
}

/// `es` groups the pages as [`grouped`] does: the groups of a
/// dependency-first order of all pages (each group in the order of its first
/// page, its pages in that order), sorted by group name.
pub open spec fn is_grouping(ps: Seq<PageView>, es: Seq<(Seq<char>, Seq<usize>)>) -> bool {
    &&& exists|t: Seq<usize>|
        #![trigger group_fold(ps, t)]
        is_page_order(ps, t) && dependencies_first(ps, t) && es.to_multiset() == group_fold(
            ps,
            t,
        ).to_multiset() && distinct_keys(group_fold(ps, t))
    &&& keys_ascending(es)
    &&& entries_in_range(es, ps.len() as int)
}

/// Return pages grouped by their `group` meta field, in topological order within each group,
/// with groups sorted alphabetically. Returns an IndexMap to preserve group order.
pub fn grouped(pages: &Vec<Page>) -> (r: IndexMap<String, Vec<usize>>)
    ensures
        group_entries(r) == page_groups(page_views(pages@)),
        is_grouping(page_views(pages@), group_entries(r)),
{
    let topo = topo_sort(pages);
    group_pages(pages, &topo)
}

/// Return page indices in topological order (leaves first) by import dependency.
pub fn topo_sort(pages: &Vec<Page>) -> (r: Vec<usize>)
    ensures
        r@ == topo_order(page_views(pages@)),
        is_page_order(page_views(pages@), r@),
        dependencies_first(page_views(pages@), r@),
{
    let ghost ps = page_views(pages@);
    let n = pages.len();
    let mut order: Vec<usize> = Vec::new();
    let mut visited = all_false(n);
    let mut in_stack = all_false(n);
    let mut start: usize = 0;
    let ghost init = Dfs {
        vis: Seq::new(ps.len(), |i: int| false),
        ins: Seq::new(ps.len(), |i: int| false),
        order: Seq::empty(),
    };
    proof {
        lemma_vis_count_none(visited@, n as int);
        assert(visited@ =~= init.vis);
        assert(in_stack@ =~= init.ins);
        assert(order@ =~= init.order);
    }
    while start < n
        invariant
            ps == page_views(pages@),
            n == ps.len() == visited@.len() == in_stack@.len(),
            start <= n,
            forall|v: int| 0 <= v < start ==> visited@[v],
            forall|v: int| 0 <= v < n ==> !in_stack@[v],
            order_inv(ps, visited@, order@),
            dfs_from(ps, Dfs { vis: visited@, ins: in_stack@, order: order@ }, start as int)
                == dfs_from(ps, init, 0),
        decreases n - start,
    {
        if visited[start] {
            start = start + 1;
            continue;
        }
        let ghost s0 = Dfs { vis: visited@, ins: in_stack@, order: order@ };
        let ghost target = visit(ps, start, s0, (n + 1) as nat);
        let mut stack: Vec<(usize, Vec<usize>)> = Vec::new();
        let ds = deps_of(pages, start);
        let ghost mut full: Seq<Seq<usize>> = seq![ds@];
        stack.push((start, ds));
        in_stack.set(start, true);
        assert(stack@[0].1@ =~= full[0].take(stack@[0].1@.len() as int));
        proof {
            let st = abs_stack(stack@);
            assert(st.drop_last() =~= Seq::<(usize, Seq<usize>)>::empty());
            assert(st.last() == (start, deps_spec(ps, start as int)));
            let cur = Dfs { vis: visited@, ins: in_stack@, order: order@ };
            assert(cur == Dfs { vis: s0.vis, ins: s0.ins.update(start as int, true), order: s0.order });
            assert(complete(ps, cur, st.drop_last()) == cur);
            assert(complete(ps, cur, st) == complete(
                ps,
                finish_page(visit_deps(ps, st.last().1, cur, (ps.len() - 0) as nat), st.last().0),
                st.drop_last(),
            ));
            assert(target == finish_page(
                visit_deps(ps, deps_spec(ps, start as int), cur, ps.len() as nat),
                start,
            ));
            assert(complete(ps, cur, st) == target);
        }
        while stack.len() > 0
            invariant
                ps == page_views(pages@),
                n == ps.len() == visited@.len() == in_stack@.len(),
                start < n,
                forall|v: int| 0 <= v < start ==> visited@[v],
                visited@[start as int] || in_stack@[start as int],
                order_inv(ps, visited@, order@),
                stack_inv(ps, visited@, in_stack@, stack@, full),
                complete(ps, Dfs { vis: visited@, ins: in_stack@, order: order@ }, abs_stack(stack@))
                    == target,
            decreases dfs_measure(ps, visited@, in_stack@, stack@),
        {
            let ghost cur = Dfs { vis: visited@, ins: in_stack@, order: order@ };
            let ghost st = abs_stack(stack@);
            if stack[stack.len() - 1].1.len() > 0 {
                proof {
                    lemma_stack_height(ps, stack@);
                    lemma_complete_descend(ps, cur, st);
                }
                let Ghost(f) = descend(pages, &visited, &mut in_stack, &mut stack, Ghost(full));
                proof {
                    full = f;
                }
            } else {
                proof {
                    lemma_complete_finish(ps, cur, st);
                }
                let Ghost(f) = finish(
                    &mut visited,
                    &mut in_stack,
                    &mut order,
                    &mut stack,
                    Ghost(ps),
                    Ghost(full),
                );
                proof {
                    full = f;
                }
            }
        }
        proof {
            assert(abs_stack(stack@) =~= Seq::<(usize, Seq<usize>)>::empty());
        }
        start = start + 1;
    }
    proof {
        assert(dfs_from(ps, Dfs { vis: visited@, ins: in_stack@, order: order@ }, n as int) == Dfs {
            vis: visited@,
            ins: in_stack@,
            order: order@,
        });
        lemma_vis_count_all(visited@, n as int);
        assert forall|v: int| 0 <= v < ps.len() implies #[trigger] lists(order@, v) by {
            assert(visited@[v]);
        }
        assert forall|i: int, j: int|
            0 <= i < order@.len() && 0 <= j < order@.len() && depends_on(
                ps,
                #[trigger] order@[i] as int,
                #[trigger] order@[j] as int,
            ) implies j < i || reaches(ps, order@[j] as int, order@[i] as int) by {
            assert(depends_on(ps, order@[i] as int, order@[j] as int));
            if exists|j2: int| 0 <= j2 < i && order@[j2] == order@[j] as int {
                let j2 = choose|j2: int| 0 <= j2 < i && order@[j2] == order@[j] as int;
                if j2 != j {
                    if j2 < j {
                        assert(order@[j2] != order@[j]);
                    } else {
                        assert(order@[j] != order@[j2]);
                    }
                }
            }
        }
    }
    order
}

} // verus!
