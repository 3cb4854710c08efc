//! Load order of bundled modules: dependencies before the modules that use
//! them.

use vstd::prelude::*;
use crate::ast::str_eq;
use crate::collections::{distinct, last_value, pair_views, StrMap, StrSet};
use crate::error::LuatError;
use crate::patterns::{group_ones, regex_accepts, regex_captures, regex_pieces, REQUIRE_PATTERN};
use crate::text::{chars_of, ends_with, owned, str_ends_with, string_of_range, trim, trim_bounds, views};

verus! {

/// A module name, trimmed, without a `.lua` or `.luat` extension.
pub open spec fn module_base(name: Seq<char>) -> Seq<char> {
    let t = trim(name);
    if ends_with(t, ".lua"@) {
        t.take(t.len() - 4)
    } else if ends_with(t, ".luat"@) {
        t.take(t.len() - 5)
    } else {
        t
    }
}

/// `name`, trimmed, without a `.lua` or `.luat` extension.
pub fn normalize_module_name(name: &str) -> (r: String)
    ensures
        r@ == module_base(name@),
{
    let v = chars_of(name);
    let (a, b) = trim_bounds(&v, 0, v.len());
    proof {
        assert(v@.subrange(0, v@.len() as int) =~= name@);
        reveal_strlit(".lua");
        reveal_strlit(".luat");
    }
    let t = string_of_range(&v, a, b);
    if str_ends_with(t.as_str(), ".lua") {
        proof {
            assert(v@.subrange(a as int, b - 4) =~= t@.take(t@.len() - 4));
        }
        return string_of_range(&v, a, b - 4);
    }
    if str_ends_with(t.as_str(), ".luat") {
        proof {
            assert(v@.subrange(a as int, b - 5) =~= t@.take(t@.len() - 5));
        }
        return string_of_range(&v, a, b - 5);
    }
    t
}

// ---------------------------------------------------------------------------
// Topological order of a graph of node indices
// ---------------------------------------------------------------------------

/// Occurrences of `v` in `s`.
pub open spec fn count_in(s: Seq<usize>, v: int) -> nat
    decreases s.len(),
{
    if s.len() == 0 {
        0
    } else {
        (if s[0] == v { 1nat } else { 0nat }) + count_in(s.drop_first(), v)
    }
}

/// Node `m` has node `d` among its dependencies.
pub open spec fn edge(a: Seq<Seq<usize>>, m: int, d: int) -> bool {
    0 <= m < a.len() && count_in(a[m], d) > 0
}

/// The adjacency lists as sequences.
pub open spec fn adj_view(adj: Seq<Vec<usize>>) -> Seq<Seq<usize>> {
    adj.map_values(|v: Vec<usize>| v@)
}

/// Dependency edges into `v` from the nodes below `k` that are not visited.
pub open spec fn pending(a: Seq<Seq<usize>>, vis: Seq<bool>, v: int, k: int) -> nat
    decreases k,
{
    if k <= 0 {
        0
    } else {
        pending(a, vis, v, k - 1) + (if !vis[k - 1] { count_in(a[k - 1], v) } else { 0nat })
    }
}

/// Number of edges of the nodes below `k`.
pub open spec fn edges_below(a: Seq<Seq<usize>>, k: int) -> nat
    decreases k,
{
    if k <= 0 {
        0
    } else {
        edges_below(a, k - 1) + a[k - 1].len()
    }
}

/// Node `v` has an edge from a node that is not in `r`.
pub open spec fn blocked(a: Seq<Seq<usize>>, r: Seq<usize>, v: int) -> bool {
    exists|m: int| 0 <= m < a.len() && !r.contains(m as usize) && #[trigger] edge(a, m, v)
}

/// Number of visited nodes.
pub open spec fn count_true(vis: Seq<bool>) -> nat
    decreases vis.len(),
{
    if vis.len() == 0 {
        0
    } else {
        (if vis[0] { 1nat } else { 0nat }) + count_true(vis.drop_first())
    }
}

/// `v` occurs in `s` exactly when its count is positive.
pub proof fn lemma_count_in(s: Seq<usize>, v: int)
    ensures
        count_in(s, v) > 0 <==> exists|j: int| 0 <= j < s.len() && s[j] == v,
        count_in(s, v) <= s.len(),
    decreases s.len(),
{
    if s.len() > 0 {
        lemma_count_in(s.drop_first(), v);
        if count_in(s.drop_first(), v) > 0 {
            let j = choose|j: int| 0 <= j < s.drop_first().len() && s.drop_first()[j] == v;
            assert(s[j + 1] == v);
        }
        if exists|j: int| 0 <= j < s.len() && s[j] == v {
            let j = choose|j: int| 0 <= j < s.len() && s[j] == v;
            if j > 0 {
                assert(s.drop_first()[j - 1] == v);
            }
        }
    }
}

/// Counting splits at any point.
pub proof fn lemma_count_split(s: Seq<usize>, v: int, j: int)
    requires
        0 <= j <= s.len(),
    ensures
        count_in(s, v) == count_in(s.take(j), v) + count_in(s.skip(j), v),
    decreases j,
{
    if j == 0 {
        assert(s.take(0) =~= Seq::<usize>::empty());
        assert(s.skip(0) =~= s);
    } else {
        lemma_count_split(s.drop_first(), v, j - 1);
        assert(s.take(j).drop_first() =~= s.drop_first().take(j - 1));
        assert(s.drop_first().skip(j - 1) =~= s.skip(j));
        assert(s.take(j)[0] == s[0]);
    }
}

/// A visited node's edges no longer count; others are unchanged.
pub proof fn lemma_pending_visit(a: Seq<Seq<usize>>, vis: Seq<bool>, q: int, v: int, k: int)
    requires
        0 <= q < vis.len(),
        !vis[q],
        k <= vis.len(),
    ensures
        q < k ==> pending(a, vis.update(q, true), v, k) + count_in(a[q], v) == pending(a, vis, v, k),
        q >= k ==> pending(a, vis.update(q, true), v, k) == pending(a, vis, v, k),
    decreases k,
{
    if k > 0 {
        lemma_pending_visit(a, vis, q, v, k - 1);
    }
}

/// With no pending edge, every node with an edge to `v` is visited.
pub proof fn lemma_pending_zero(a: Seq<Seq<usize>>, vis: Seq<bool>, v: int, k: int)
    requires
        k <= vis.len(),
        k <= a.len(),
    ensures
        pending(a, vis, v, k) == 0 <==> forall|m: int| 0 <= m < k && !vis[m] ==> count_in(#[trigger] a[m], v) == 0,
    decreases k,
{
    if k > 0 {
        lemma_pending_zero(a, vis, v, k - 1);
    }
}

/// Pending edges are at most all edges.
pub proof fn lemma_pending_le(a: Seq<Seq<usize>>, vis: Seq<bool>, v: int, k: int)
    requires
        k <= a.len(),
        k <= vis.len(),
    ensures
        pending(a, vis, v, k) <= edges_below(a, k),
    decreases k,
{
    if k > 0 {
        lemma_pending_le(a, vis, v, k - 1);
        lemma_count_in(a[k - 1], v);
    }
}

/// Visiting a node adds one to the visited count.
pub proof fn lemma_count_true_visit(vis: Seq<bool>, q: int)
    requires
        0 <= q < vis.len(),
        !vis[q],
    ensures
        count_true(vis.update(q, true)) == count_true(vis) + 1,
        count_true(vis) < vis.len(),
    decreases vis.len(),
{
    if q > 0 {
        lemma_count_true_visit(vis.drop_first(), q - 1);
        assert(vis.update(q, true).drop_first() =~= vis.drop_first().update(q - 1, true));
    } else {
        assert(vis.update(q, true).drop_first() =~= vis.drop_first());
        lemma_count_true_le(vis.drop_first());
    }
}

/// At most every node is visited.
pub proof fn lemma_count_true_le(vis: Seq<bool>)
    ensures
        count_true(vis) <= vis.len(),
    decreases vis.len(),
{
    if vis.len() > 0 {
        lemma_count_true_le(vis.drop_first());
    }
}

/// No node is visited.
pub proof fn lemma_count_true_none(n: nat)
    ensures
        count_true(Seq::new(n, |i: int| false)) == 0,
    decreases n,
{
    if n > 0 {
        assert(Seq::new(n, |i: int| false).drop_first() =~= Seq::new((n - 1) as nat, |i: int| false));
        lemma_count_true_none((n - 1) as nat);
    }
}

/// The nodes of graph `adj` in an order where every node comes after the
/// nodes with an edge to it, as far as such an order reaches (Kahn's
/// algorithm, taking ready nodes last in first out). A node left out has an
/// edge from another node left out.
fn kahn(adj: &Vec<Vec<usize>>) -> (r: Vec<usize>)
    requires
        forall|m: int, j: int| 0 <= m < adj@.len() && 0 <= j < adj@[m]@.len() ==> (#[trigger] adj@[m]@[j]) < adj@.len(),
        edges_below(adj_view(adj@), adj@.len() as int) < usize::MAX,
    ensures
        r@.len() <= adj@.len(),
        forall|i: int| 0 <= i < r@.len() ==> (#[trigger] r@[i]) < adj@.len(),
        forall|i: int, j: int| 0 <= i < j < r@.len() ==> r@[i] != r@[j],
        forall|p: int, m: int| 0 <= p < r@.len() && #[trigger] edge(adj_view(adj@), m, r@[p] as int)
            ==> exists|p2: int| 0 <= p2 < p && r@[p2] == m,
        forall|v: int| 0 <= v < adj@.len() && !r@.contains(v as usize) ==> #[trigger] blocked(adj_view(adj@), r@, v),
{
    let n = adj.len();
    let ghost a = adj_view(adj@);
    let mut indeg: Vec<usize> = Vec::new();
    let mut vis: Vec<bool> = Vec::new();
    let mut i: usize = 0;
    while i < n
        invariant
            i <= n == adj@.len(),
            indeg@ == Seq::new(i as nat, |k: int| 0usize),
            vis@ == Seq::new(i as nat, |k: int| false),
        decreases n - i,
    {
        indeg.push(0);
        vis.push(false);
        proof {
            assert(indeg@ =~= Seq::new((i + 1) as nat, |k: int| 0usize));
            assert(vis@ =~= Seq::new((i + 1) as nat, |k: int| false));
        }
        i = i + 1;
    }
    let ghost none = vis@;
    let mut m: usize = 0;
    while m < n
        invariant
            m <= n == adj@.len() == indeg@.len() == vis@.len(),
            a == adj_view(adj@),
            vis@ == none,
            none == Seq::new(n as nat, |k: int| false),
            forall|x: int, j: int| 0 <= x < adj@.len() && 0 <= j < adj@[x]@.len() ==> (#[trigger] adj@[x]@[j]) < adj@.len(),
            edges_below(a, n as int) < usize::MAX,
            forall|v: int| 0 <= v < n ==> #[trigger] indeg@[v] == pending(a, none, v, m as int),
        decreases n - m,
    {
        let row = &adj[m];
        let mut j: usize = 0;
        while j < row.len()
            invariant
                m < n == adj@.len() == indeg@.len() == vis@.len(),
                a == adj_view(adj@),
                row@ == a[m as int],
                j <= row@.len(),
                vis@ == none,
                none == Seq::new(n as nat, |k: int| false),
                forall|x: int, k: int| 0 <= x < adj@.len() && 0 <= k < adj@[x]@.len() ==> (#[trigger] adj@[x]@[k]) < adj@.len(),
                edges_below(a, n as int) < usize::MAX,
                forall|v: int| 0 <= v < n ==> #[trigger] indeg@[v] == pending(a, none, v, m as int) + count_in(row@.take(j as int), v),
            decreases row@.len() - j,
        {
            let d = row[j];
            proof {
                assert(adj@[m as int]@[j as int] == d);
                lemma_count_split(row@.take(j + 1), d as int, j as int);
                assert(row@.take(j + 1).take(j as int) =~= row@.take(j as int));
                assert(row@.take(j + 1).skip(j as int) =~= seq![d]);
                lemma_count_single(d, d as int);
                lemma_pending_le(a, none, d as int, m + 1);
                lemma_count_split(row@, d as int, j + 1);
                lemma_count_in(row@.skip(j + 1), d as int);
                assert(pending(a, none, d as int, m + 1) == pending(a, none, d as int, m as int) + count_in(a[m as int], d as int));
                lemma_edges_below_mono(a, m + 1, n as int);
            }
            let cur = indeg[d];
            indeg.set(d, cur + 1);
            proof {
                assert forall|v: int| 0 <= v < n implies #[trigger] indeg@[v] == pending(a, none, v, m as int) + count_in(row@.take(j + 1), v) by {
                    lemma_count_split(row@.take(j + 1), v, j as int);
                    assert(row@.take(j + 1).take(j as int) =~= row@.take(j as int));
                    assert(row@.take(j + 1).skip(j as int) =~= seq![d]);
                    lemma_count_single(d, v);
                }
            }
            j = j + 1;
        }
        proof {
            assert(row@.take(j as int) =~= row@);
        }
        m = m + 1;
    }
    let mut queue: Vec<usize> = Vec::new();
    let mut v: usize = 0;
    while v < n
        invariant
            v <= n == adj@.len() == indeg@.len() == vis@.len(),
            vis@ == none,
            forall|i: int| 0 <= i < queue@.len() ==> (#[trigger] queue@[i]) < n && indeg@[queue@[i] as int] == 0,
            forall|x: int| 0 <= x < v && indeg@[x] == 0 ==> queue@.contains(x as usize),
        decreases n - v,
    {
        let ghost queue0 = queue@;
        if indeg[v] == 0 {
            queue.push(v);
            proof {
                assert forall|x: int| 0 <= x < v && indeg@[x] == 0 implies queue@.contains(x as usize) by {
                    lemma_push_keeps(queue0, v, x as usize);
                }
                assert(queue@[queue@.len() - 1] == v);
            }
        }
        v = v + 1;
    }
    let mut sorted: Vec<usize> = Vec::new();
    proof {
        lemma_count_true_none(n as nat);
    }
    loop
        invariant
            n == adj@.len() == indeg@.len() == vis@.len(),
            a == adj_view(adj@),
            forall|x: int, k: int| 0 <= x < adj@.len() && 0 <= k < adj@[x]@.len() ==> (#[trigger] adj@[x]@[k]) < adj@.len(),
            forall|v: int| 0 <= v < n ==> #[trigger] indeg@[v] == pending(a, vis@, v, n as int),
            forall|i: int| 0 <= i < queue@.len() ==> (#[trigger] queue@[i]) < n && indeg@[queue@[i] as int] == 0,
            forall|x: int| 0 <= x < n && !vis@[x] && indeg@[x] == 0 ==> queue@.contains(x as usize),
            forall|i: int| 0 <= i < sorted@.len() ==> (#[trigger] sorted@[i]) < n,
            forall|i: int, j: int| 0 <= i < j < sorted@.len() ==> sorted@[i] != sorted@[j],
            forall|x: int| 0 <= x < n ==> (vis@[x] <==> sorted@.contains(x as usize)),
            sorted@.len() == count_true(vis@),
            forall|p: int, m: int| 0 <= p < sorted@.len() && #[trigger] edge(a, m, sorted@[p] as int)
                ==> exists|p2: int| 0 <= p2 < p && sorted@[p2] == m,
        ensures
            queue@.len() == 0,
        decreases n - sorted@.len(), queue@.len(),
    {
        proof {
            lemma_count_true_le(vis@);
        }
        let ghost queue_before = queue@;
        let q = match queue.pop() {
            None => break,
            Some(q) => q,
        };
        proof {
            assert forall|x: int| 0 <= x < n && x != q && !vis@[x] && indeg@[x] == 0 implies queue@.contains(x as usize) by {
                lemma_pop_keeps(queue_before, x as usize);
            }
        }
        if vis[q] {
            continue;
        }
        let ghost vis0 = vis@;
        let ghost sorted0 = sorted@;
        proof {
            lemma_pending_zero(a, vis0, q as int, n as int);
            assert forall|m: int| #[trigger] edge(a, m, q as int) implies exists|p2: int| 0 <= p2 < sorted0.len() && sorted0[p2] == m by {
                assert(vis0[m]);
                assert(sorted0.contains(m as usize));
            }
            lemma_count_true_visit(vis0, q as int);
        }
        sorted.push(q);
        vis.set(q, true);
        proof {
            assert forall|p: int, m: int| 0 <= p < sorted@.len() && #[trigger] edge(a, m, sorted@[p] as int)
                implies exists|p2: int| 0 <= p2 < p && sorted@[p2] == m by {
                if p < sorted0.len() {
                    let p2 = choose|p2: int| 0 <= p2 < p && sorted0[p2] == m;
                    assert(sorted@[p2] == m);
                } else {
                    let p2 = choose|p2: int| 0 <= p2 < sorted0.len() && sorted0[p2] == m;
                    assert(sorted@[p2] == m);
                }
            }
            assert forall|x: int| 0 <= x < n implies (vis@[x] <==> sorted@.contains(x as usize)) by {
                if x == q {
                    assert(sorted@[sorted0.len() as int] == q);
                } else {
                    if sorted@.contains(x as usize) {
                        let i = choose|i: int| 0 <= i < sorted@.len() && sorted@[i] == x as usize;
                        assert(i < sorted0.len());
                        assert(sorted0[i] == x);
                    }
                    if sorted0.contains(x as usize) {
                        let i = choose|i: int| 0 <= i < sorted0.len() && sorted0[i] == x as usize;
                        assert(sorted@[i] == x);
                    }
                }
            }
            assert forall|i: int, j: int| 0 <= i < j < sorted@.len() implies sorted@[i] != sorted@[j] by {
                if j == sorted0.len() {
                    assert(!vis0[q as int]);
                    assert(!sorted0.contains(q));
                    assert(sorted@[i] == sorted0[i]);
                }
            }
            assert forall|v: int| 0 <= v < n implies indeg@[v] == pending(a, vis@, v, n as int) + count_in(a[q as int], v) by {
                lemma_pending_visit(a, vis0, q as int, v, n as int);
            }
        }
        let row = &adj[q];
        let ghost queue0 = queue@;
        let mut j: usize = 0;
        proof {
            assert(row@.skip(0) =~= row@);
        }
        while j < row.len()
            invariant
                n == adj@.len() == indeg@.len() == vis@.len(),
                a == adj_view(adj@),
                q < n,
                row@ == a[q as int],
                j <= row@.len(),
                vis@[q as int],
                forall|x: int, k: int| 0 <= x < adj@.len() && 0 <= k < adj@[x]@.len() ==> (#[trigger] adj@[x]@[k]) < adj@.len(),
                forall|v: int| 0 <= v < n ==> #[trigger] indeg@[v] == pending(a, vis@, v, n as int) + count_in(row@.skip(j as int), v),
                forall|i: int| 0 <= i < queue@.len() ==> (#[trigger] queue@[i]) < n && indeg@[queue@[i] as int] == 0,
                forall|x: int| 0 <= x < n && !vis@[x] && indeg@[x] == 0 ==> queue@.contains(x as usize),
            decreases row@.len() - j,
        {
            let d = row[j];
            proof {
                assert(adj@[q as int]@[j as int] == d);
                assert(row@.skip(j as int)[0] == d);
                assert(row@.skip(j as int).drop_first() =~= row@.skip(j + 1));
            }
            let ghost queue1 = queue@;
            let cur = indeg[d];
            indeg.set(d, cur - 1);
            if cur - 1 == 0 && !vis[d] {
                queue.push(d);
                proof {
                    assert(queue@[queue@.len() - 1] == d);
                }
            }
            proof {
                assert forall|i: int| 0 <= i < queue@.len() implies (#[trigger] queue@[i]) < n && indeg@[queue@[i] as int] == 0 by {
                    if queue@[i] == d && cur - 1 != 0 {
                        assert(false);
                    }
                }
                assert forall|x: int| 0 <= x < n && !vis@[x] && indeg@[x] == 0 implies queue@.contains(x as usize) by {
                    if x != d {
                        assert(queue1.contains(x as usize));
                        if queue@.len() != queue1.len() {
                            lemma_push_keeps(queue1, d, x as usize);
                        }
                    } else {
                        assert(queue@[queue@.len() - 1] == d);
                    }
                }
            }
            j = j + 1;
        }
        proof {
            assert(row@.skip(j as int) =~= Seq::<usize>::empty());
        }
    }
    proof {
        assert forall|v: int| 0 <= v < n && !sorted@.contains(v as usize) implies #[trigger] blocked(a, sorted@, v) by {
            assert(!vis@[v]);
            assert(indeg@[v] != 0);
            lemma_pending_zero(a, vis@, v, n as int);
            let m = choose|m: int| 0 <= m < n && !vis@[m] && count_in(#[trigger] a[m], v) != 0;
            assert(edge(a, m, v));
        }
        lemma_count_true_le(vis@);
    }
    sorted
}

/// A sequence of one element counts it once.
pub proof fn lemma_count_single(x: usize, v: int)
    ensures
        count_in(seq![x], v) == (if x == v { 1nat } else { 0nat }),
{
    assert(seq![x].drop_first() =~= Seq::<usize>::empty());
    assert(count_in(Seq::<usize>::empty(), v) == 0);
}

/// Appending keeps every element.
pub proof fn lemma_push_keeps<A>(s: Seq<A>, y: A, x: A)
    requires
        s.contains(x),
    ensures
        s.push(y).contains(x),
{
    let i = choose|i: int| 0 <= i < s.len() && s[i] == x;
    assert(s.push(y)[i] == x);
}

/// Taking the last element off keeps every other element.
pub proof fn lemma_pop_keeps(s: Seq<usize>, x: usize)
    requires
        s.contains(x),
        s.last() != x,
    ensures
        s.drop_last().contains(x),
{
    let i = choose|i: int| 0 <= i < s.len() && s[i] == x;
    assert(s.drop_last()[i] == x);
}

/// Edge counts grow with the number of nodes counted.
pub proof fn lemma_edges_below_mono(a: Seq<Seq<usize>>, k: int, m: int)
    requires
        0 <= k <= m,
    ensures
        edges_below(a, k) <= edges_below(a, m),
    decreases m - k,
{
    if k < m {
        lemma_edges_below_mono(a, k, m - 1);
    }
}


// ---------------------------------------------------------------------------
// Dependency graphs over module names
// ---------------------------------------------------------------------------

/// The module names of a dependency list, in order.
pub open spec fn key_names(deps: Seq<(Seq<char>, Seq<Seq<char>>)>) -> Seq<Seq<char>> {
    deps.map_values(|p: (Seq<char>, Seq<Seq<char>>)| p.0)
}

/// The dependencies of each module, in order.
pub open spec fn dep_lists(deps: Seq<(Seq<char>, Seq<Seq<char>>)>) -> Seq<Seq<Seq<char>>> {
    deps.map_values(|p: (Seq<char>, Seq<Seq<char>>)| p.1)
}

/// A dependency list by its views: each module name with the names it
/// requires.
pub open spec fn graph_view(deps: Seq<(String, Vec<String>)>) -> Seq<(Seq<char>, Seq<Seq<char>>)> {
    deps.map_values(|p: (String, Vec<String>)| (p.0@, views(p.1@)))
}

/// Module `m` names `d` among its dependencies.
pub open spec fn depends(deps: Seq<(Seq<char>, Seq<Seq<char>>)>, m: Seq<char>, d: Seq<char>) -> bool {
    exists|i: int| 0 <= i < deps.len() && #[trigger] key_names(deps)[i] == m && dep_lists(deps)[i].contains(d)
}

/// `acc` followed by the names of `ns` it does not hold yet, in order.
pub open spec fn add_names(acc: Seq<Seq<char>>, ns: Seq<Seq<char>>) -> Seq<Seq<char>>
    decreases ns.len(),
{
    if ns.len() == 0 {
        acc
    } else {
        let a = add_names(acc, ns.drop_last());
        if a.contains(ns.last()) {
            a
        } else {
            a.push(ns.last())
        }
    }
}

/// The module names, then the dependencies of the first `k` modules that
/// are not module names yet.
pub open spec fn names_upto(deps: Seq<(Seq<char>, Seq<Seq<char>>)>, k: int) -> Seq<Seq<char>>
    decreases k,
{
    if k <= 0 {
        key_names(deps)
    } else {
        add_names(names_upto(deps, k - 1), dep_lists(deps)[k - 1])
    }
}

/// Every name in the graph: the modules, then the other dependencies.
pub open spec fn node_names(deps: Seq<(Seq<char>, Seq<Seq<char>>)>) -> Seq<Seq<char>> {
    names_upto(deps, deps.len() as int)
}

/// Total number of dependency entries of the first `k` modules.
pub open spec fn dep_total(deps: Seq<(Seq<char>, Seq<Seq<char>>)>, k: int) -> nat
    decreases k,
{
    if k <= 0 {
        0
    } else {
        dep_total(deps, k - 1) + deps[k - 1].1.len()
    }
}

/// `s` is a load order of the graph as far as one exists: names of the
/// graph, none twice, each before every module that requires it, and each
/// name left out is required by a module that is left out too.
pub open spec fn settled(deps: Seq<(Seq<char>, Seq<Seq<char>>)>, s: Seq<Seq<char>>) -> bool {
    &&& distinct(s)
    &&& forall|i: int| 0 <= i < s.len() ==> node_names(deps).contains(#[trigger] s[i])
    &&& forall|p: int, m: Seq<char>| 0 <= p < s.len() && #[trigger] depends(deps, m, s[p])
        ==> exists|p2: int| p < p2 < s.len() && s[p2] == m
    &&& forall|x: Seq<char>| #[trigger] node_names(deps).contains(x) && !s.contains(x) ==>
        exists|m: Seq<char>| node_names(deps).contains(m) && !s.contains(m) && #[trigger] depends(deps, m, x)
}

/// The error for a dependency cycle.
pub open spec fn is_cycle_error(e: LuatError) -> bool {
    e matches LuatError::InvalidTemplate(m) && m@ == "Circular dependency detected in template modules"@
}


/// `nv` and `a` number the graph of `deps`: the module names come first in
/// `nv`, and row `t` of `a` lists where the dependencies of module `t` stand.
spec fn indexes_graph(deps: Seq<(Seq<char>, Seq<Seq<char>>)>, nv: Seq<Seq<char>>, a: Seq<Seq<usize>>) -> bool {
    &&& distinct(nv)
    &&& deps.len() <= nv.len() == a.len()
    &&& forall|t: int| 0 <= t < deps.len() ==> #[trigger] nv[t] == key_names(deps)[t]
    &&& forall|t: int| 0 <= t < a.len() ==> (#[trigger] a[t]).len() == (if t < deps.len() { dep_lists(deps)[t].len() } else { 0 })
    &&& forall|t: int, k: int| 0 <= t < deps.len() && 0 <= k < a[t].len() ==> (#[trigger] a[t][k]) < nv.len()
        && nv[a[t][k] as int] == dep_lists(deps)[t][k]
}

/// The names of `order`, last first.
pub open spec fn rev_names(nv: Seq<Seq<char>>, order: Seq<usize>) -> Seq<Seq<char>> {
    Seq::new(order.len(), |i: int| nv[order[order.len() - 1 - i] as int])
}

/// An edge by index is a dependency by name.
proof fn lemma_edge_depends(deps: Seq<(Seq<char>, Seq<Seq<char>>)>, nv: Seq<Seq<char>>, a: Seq<Seq<usize>>, mi: int, di: int)
    requires
        indexes_graph(deps, nv, a),
        0 <= mi < nv.len(),
        0 <= di < nv.len(),
    ensures
        edge(a, mi, di) == depends(deps, nv[mi], nv[di]),
{
    lemma_count_in(a[mi], di);
    if edge(a, mi, di) {
        let j = choose|j: int| 0 <= j < a[mi].len() && a[mi][j] == di;
        assert(a[mi][j] == di);
        assert(mi < deps.len());
        assert(dep_lists(deps)[mi][j] == nv[di]);
        assert(dep_lists(deps)[mi].contains(nv[di]));
        assert(key_names(deps)[mi] == nv[mi]);
    }
    if depends(deps, nv[mi], nv[di]) {
        let i = choose|i: int| 0 <= i < deps.len() && #[trigger] key_names(deps)[i] == nv[mi] && dep_lists(deps)[i].contains(nv[di]);
        assert(nv[i] == key_names(deps)[i]);
        assert(i == mi);
        let j = choose|j: int| 0 <= j < dep_lists(deps)[i].len() && dep_lists(deps)[i][j] == nv[di];
        assert(a[i].len() == dep_lists(deps)[i].len());
        let x = a[i][j];
        assert(nv[x as int] == nv[di]);
        assert(x == di);
        assert(a[mi][j] == di);
    }
}

/// What the ordering by index gives, read by name.
proof fn lemma_settled_from_order(deps: Seq<(Seq<char>, Seq<Seq<char>>)>, nv: Seq<Seq<char>>, a: Seq<Seq<usize>>, order: Seq<usize>)
    requires
        indexes_graph(deps, nv, a),
        nv == node_names(deps),
        a.len() <= usize::MAX,
        forall|i: int| 0 <= i < order.len() ==> (#[trigger] order[i]) < a.len(),
        forall|i: int, j: int| 0 <= i < j < order.len() ==> order[i] != order[j],
        forall|p: int, m: int| 0 <= p < order.len() && #[trigger] edge(a, m, order[p] as int)
            ==> exists|p2: int| 0 <= p2 < p && order[p2] == m,
        forall|v: int| 0 <= v < a.len() && !order.contains(v as usize) ==> #[trigger] blocked(a, order, v),
    ensures
        settled(deps, rev_names(nv, order)),
{
    let s = rev_names(nv, order);
    let l = order.len() as int;
    assert forall|i: int, j: int| 0 <= i < j < s.len() implies s[i] != s[j] by {
        assert(order[l - 1 - j] != order[l - 1 - i]);
    }
    assert forall|i: int| 0 <= i < s.len() implies node_names(deps).contains(#[trigger] s[i]) by {
        assert(nv[order[l - 1 - i] as int] == s[i]);
    }
    assert forall|p: int, m: Seq<char>| 0 <= p < s.len() && #[trigger] depends(deps, m, s[p])
        implies exists|p2: int| p < p2 < s.len() && s[p2] == m by {
        let i = choose|i: int| 0 <= i < deps.len() && #[trigger] key_names(deps)[i] == m && dep_lists(deps)[i].contains(s[p]);
        assert(nv[i] == m);
        let di = order[l - 1 - p] as int;
        lemma_edge_depends(deps, nv, a, i, di);
        assert(edge(a, i, order[l - 1 - p] as int));
        let q2 = choose|q2: int| 0 <= q2 < l - 1 - p && order[q2] == i;
        assert(s[l - 1 - q2] == m);
    }
    assert forall|x: Seq<char>| #[trigger] node_names(deps).contains(x) && !s.contains(x) implies
        exists|m: Seq<char>| node_names(deps).contains(m) && !s.contains(m) && #[trigger] depends(deps, m, x) by {
        let v = choose|v: int| 0 <= v < nv.len() && nv[v] == x;
        if order.contains(v as usize) {
            let q = choose|q: int| 0 <= q < l && order[q] == v as usize;
            assert(l - 1 - (l - 1 - q) == q);
            assert(order[q] as int == v);
            assert(s[l - 1 - q] == nv[order[q] as int]);
            assert(s.contains(x));
        }
        assert(blocked(a, order, v));
        let mi = choose|mi: int| 0 <= mi < a.len() && !order.contains(mi as usize) && #[trigger] edge(a, mi, v);
        lemma_edge_depends(deps, nv, a, mi, v);
        if s.contains(nv[mi]) {
            let i = choose|i: int| 0 <= i < s.len() && s[i] == nv[mi];
            assert(nv[order[l - 1 - i] as int] == nv[mi]);
            assert(order[l - 1 - i] == mi as usize);
        }
        assert(node_names(deps).contains(nv[mi]));
    }
}

/// Edge counts depend only on the rows counted.
proof fn lemma_edges_below_prefix(a: Seq<Seq<usize>>, b: Seq<Seq<usize>>, k: int)
    requires
        0 <= k <= a.len(),
        k <= b.len(),
        forall|t: int| 0 <= t < k ==> a[t] == b[t],
    ensures
        edges_below(a, k) == edges_below(b, k),
    decreases k,
{
    if k > 0 {
        lemma_edges_below_prefix(a, b, k - 1);
    }
}

/// A load order of the modules of `deps` in which each module comes before
/// every module that requires it. `Err` when some modules cannot be ordered
/// (a cycle, or a required name that is no module of `deps`).
pub fn topo_sort(deps: &Vec<(String, Vec<String>)>) -> (r: Result<Vec<String>, LuatError>)
    requires
        distinct(key_names(graph_view(deps@))),
        dep_total(graph_view(deps@), deps@.len() as int) < usize::MAX,
    ensures
        match r {
            Ok(out) => views(out@).len() == deps@.len() && settled(graph_view(deps@), views(out@)),
            Err(e) => is_cycle_error(e) && exists|s: Seq<Seq<char>>| settled(graph_view(deps@), s) && s.len() != deps@.len(),
        },
{
    let ghost g = graph_view(deps@);
    let n_keys = deps.len();
    let mut names = StrSet::new();
    let mut i: usize = 0;
    while i < n_keys
        invariant
            g == graph_view(deps@),
            i <= n_keys == g.len(),
            names.wf(),
            names@ == key_names(g).take(i as int),
            distinct(key_names(g)),
        decreases n_keys - i,
    {
        let ghost before = names@;
        proof {
            if before.contains(key_names(g)[i as int]) {
                let t = choose|t: int| 0 <= t < before.len() && before[t] == key_names(g)[i as int];
                assert(key_names(g)[t] == key_names(g)[i as int]);
            }
        }
        names.insert(deps[i].0.as_str());
        proof {
            assert(names@ =~= key_names(g).take(i + 1));
        }
        i = i + 1;
    }
    proof {
        assert(key_names(g).take(n_keys as int) =~= names_upto(g, 0));
    }
    let mut i: usize = 0;
    while i < n_keys
        invariant
            g == graph_view(deps@),
            i <= n_keys == g.len(),
            names.wf(),
            names@ == names_upto(g, i as int),
            n_keys <= names@.len(),
            forall|t: int| 0 <= t < n_keys ==> #[trigger] names@[t] == key_names(g)[t],
            forall|t: int, k: int| 0 <= t < i && 0 <= k < dep_lists(g)[t].len() ==> names@.contains(#[trigger] dep_lists(g)[t][k]),
        decreases n_keys - i,
    {
        let list = &deps[i].1;
        let ghost dl = dep_lists(g)[i as int];
        let ghost start = names@;
        proof {
            assert(dl == views(list@));
            assert(dl.take(0) =~= Seq::<Seq<char>>::empty());
        }
        let mut j: usize = 0;
        while j < list.len()
            invariant
                g == graph_view(deps@),
                i < n_keys == g.len(),
                j <= list@.len() == dl.len(),
                dl == views(list@),
                dl == dep_lists(g)[i as int],
                start == names_upto(g, i as int),
                names.wf(),
                names@ == add_names(start, dl.take(j as int)),
                n_keys <= names@.len(),
                forall|t: int| 0 <= t < n_keys ==> #[trigger] names@[t] == key_names(g)[t],
                forall|t: int, k: int| 0 <= t < i && 0 <= k < dep_lists(g)[t].len() ==> names@.contains(#[trigger] dep_lists(g)[t][k]),
                forall|k: int| 0 <= k < j ==> names@.contains(#[trigger] dl[k]),
            decreases list@.len() - j,
        {
            let ghost prev = names@;
            names.insert(list[j].as_str());
            proof {
                let ns = dl.take(j + 1);
                assert(ns.drop_last() =~= dl.take(j as int));
                assert(ns.last() == dl[j as int]);
                if !prev.contains(dl[j as int]) {
                    assert forall|t: int, k: int| 0 <= t < i && 0 <= k < dep_lists(g)[t].len() implies names@.contains(#[trigger] dep_lists(g)[t][k]) by {
                        lemma_push_keeps(prev, dl[j as int], dep_lists(g)[t][k]);
                    }
                    assert forall|k: int| 0 <= k < j + 1 implies names@.contains(#[trigger] dl[k]) by {
                        if k < j {
                            lemma_push_keeps(prev, dl[j as int], dl[k]);
                        } else {
                            assert(names@[prev.len() as int] == dl[j as int]);
                        }
                    }
                }
            }
            j = j + 1;
        }
        proof {
            assert(dl.take(j as int) =~= dl);
        }
        i = i + 1;
    }
    let total = names.len();
    let mut adj: Vec<Vec<usize>> = Vec::new();
    let mut m: usize = 0;
    while m < total
        invariant
            g == graph_view(deps@),
            m <= total == names@.len(),
            n_keys == g.len() <= total,
            names.wf(),
            names@ == node_names(g),
            adj@.len() == m,
            dep_total(g, g.len() as int) < usize::MAX,
            forall|t: int| 0 <= t < n_keys ==> #[trigger] names@[t] == key_names(g)[t],
            forall|t: int, k: int| 0 <= t < n_keys && 0 <= k < dep_lists(g)[t].len() ==> names@.contains(#[trigger] dep_lists(g)[t][k]),
            forall|t: int| 0 <= t < m ==> (#[trigger] adj@[t])@.len() == (if t < n_keys { dep_lists(g)[t].len() } else { 0 }),
            forall|t: int, k: int| 0 <= t < m && t < n_keys && 0 <= k < adj@[t]@.len() ==> (#[trigger] adj@[t]@[k]) < total
                && names@[adj@[t]@[k] as int] == dep_lists(g)[t][k],
            edges_below(adj_view(adj@), m as int) == dep_total(g, if m < n_keys { m as int } else { n_keys as int }),
        decreases total - m,
    {
        let mut row: Vec<usize> = Vec::new();
        if m < n_keys {
            let list = &deps[m].1;
            let ghost dl = dep_lists(g)[m as int];
            proof {
                assert(dl == views(list@));
            }
            let mut j: usize = 0;
            while j < list.len()
                invariant
                    g == graph_view(deps@),
                    m < n_keys == g.len(),
                    total == names@.len(),
                    j <= list@.len() == dl.len(),
                    dl == views(list@),
                    row@.len() == j,
                    forall|k: int| 0 <= k < dl.len() ==> names@.contains(#[trigger] dl[k]),
                    forall|k: int| 0 <= k < j ==> (#[trigger] row@[k]) < total && names@[row@[k] as int] == dl[k],
                decreases list@.len() - j,
            {
                let p = names.position(list[j].as_str());
                proof {
                    assert(names@.contains(dl[j as int]));
                }
                let p = match p {
                    Some(p) => p,
                    None => {
                        proof {
                            assert(false);
                        }
                        0
                    },
                };
                row.push(p);
                j = j + 1;
            }
        }
        let ghost old_a = adj_view(adj@);
        adj.push(row);
        proof {
            let na = adj_view(adj@);
            assert(na =~= old_a.push(row@));
            lemma_edges_below_prefix(na, old_a, m as int);
            assert(na[m as int] == row@);
        }
        m = m + 1;
    }
    let ghost a = adj_view(adj@);
    proof {
        assert(indexes_graph(g, names@, a));
    }
    let order = kahn(&adj);
    proof {
        assert(a.len() == adj.len());
        lemma_settled_from_order(g, names@, a, order@);
    }
    let items = names.items();
    let ghost nv = names@;
    let mut out: Vec<String> = Vec::new();
    let mut k: usize = order.len();
    proof {
        assert(views(out@) =~= rev_names(nv, order@).take(0));
    }
    while k > 0
        invariant
            g == graph_view(deps@),
            k <= order@.len(),
            views(items@) == nv,
            nv.len() == adj@.len(),
            forall|i: int| 0 <= i < order@.len() ==> (#[trigger] order@[i]) < adj@.len(),
            views(out@) == rev_names(nv, order@).take(order@.len() - k),
        decreases k,
    {
        k = k - 1;
        let x = order[k];
        let ghost before = views(out@);
        out.push(owned(items[x].as_str()));
        proof {
            let len = order@.len() as int;
            assert(len - 1 - (len - 1 - k) == k);
            assert(rev_names(nv, order@)[len - 1 - k] == nv[x as int]);
            assert(items@[x as int]@ == nv[x as int]);
            assert(views(out@) =~= before.push(nv[x as int]));
            assert(views(out@) =~= rev_names(nv, order@).take(order@.len() - k));
        }
    }
    proof {
        assert(views(out@) =~= rev_names(nv, order@));
    }
    if order.len() != n_keys {
        return Err(LuatError::InvalidTemplate(owned("Circular dependency detected in template modules")));
    }
    Ok(out)
}


/// Every name of `c` is required by a name of `c`: a group of modules that
/// require one another in a circle.
pub open spec fn self_required(deps: Seq<(Seq<char>, Seq<Seq<char>>)>, c: Seq<Seq<char>>) -> bool {
    &&& c.len() > 0
    &&& forall|i: int| 0 <= i < c.len() ==> #[trigger] required_within(deps, c, c[i])
}

/// A name of `c` requires `x`.
pub open spec fn required_within(deps: Seq<(Seq<char>, Seq<Seq<char>>)>, c: Seq<Seq<char>>, x: Seq<char>) -> bool {
    exists|j: int| 0 <= j < c.len() && #[trigger] depends(deps, c[j], x)
}

/// Every required name is a module of `deps`.
pub open spec fn closed(deps: Seq<(Seq<char>, Seq<Seq<char>>)>) -> bool {
    forall|t: int, k: int| 0 <= t < deps.len() && 0 <= k < dep_lists(deps)[t].len()
        ==> key_names(deps).contains(#[trigger] dep_lists(deps)[t][k])
}

/// Load orders that reach as far as the graph allows hold the same names,
/// so they have the same length: whether the graph can be ordered in full
/// does not depend on which such order is found.
pub proof fn lemma_settled_unique(deps: Seq<(Seq<char>, Seq<Seq<char>>)>, s1: Seq<Seq<char>>, s2: Seq<Seq<char>>)
    requires
        settled(deps, s1),
        settled(deps, s2),
    ensures
        s1.to_set() == s2.to_set(),
        s1.len() == s2.len(),
{
    lemma_settled_subset(deps, s1, s2, 0);
    lemma_settled_subset(deps, s2, s1, 0);
    assert forall|x: Seq<char>| s1.to_set().contains(x) <==> s2.to_set().contains(x) by {
        if s1.contains(x) {
            let i = choose|i: int| 0 <= i < s1.len() && s1[i] == x;
            assert(s2.contains(s1[i]));
        }
        if s2.contains(x) {
            let i = choose|i: int| 0 <= i < s2.len() && s2[i] == x;
            assert(s1.contains(s2[i]));
        }
    }
    assert(s1.to_set() =~= s2.to_set());
    lemma_distinct_no_dup(s1);
    lemma_distinct_no_dup(s2);
    s1.unique_seq_to_set();
    s2.unique_seq_to_set();
}

/// From position `p` on, the names of one settled order are in the other.
proof fn lemma_settled_subset(deps: Seq<(Seq<char>, Seq<Seq<char>>)>, s1: Seq<Seq<char>>, s2: Seq<Seq<char>>, p: int)
    requires
        settled(deps, s1),
        settled(deps, s2),
        0 <= p <= s1.len(),
    ensures
        forall|q: int| p <= q < s1.len() ==> s2.contains(#[trigger] s1[q]),
    decreases s1.len() - p,
{
    if p < s1.len() {
        lemma_settled_subset(deps, s1, s2, p + 1);
        let x = s1[p];
        if !s2.contains(x) {
            assert(node_names(deps).contains(x));
            let m = choose|m: Seq<char>| node_names(deps).contains(m) && !s2.contains(m) && #[trigger] depends(deps, m, x);
            assert(depends(deps, m, s1[p]));
            let p2 = choose|p2: int| p < p2 < s1.len() && s1[p2] == m;
            assert(s2.contains(s1[p2]));
        }
    }
}

/// No name of a circle of modules ever gets a place in a load order.
pub proof fn lemma_cycle_unordered(deps: Seq<(Seq<char>, Seq<Seq<char>>)>, s: Seq<Seq<char>>, c: Seq<Seq<char>>)
    requires
        settled(deps, s),
        self_required(deps, c),
    ensures
        forall|i: int| 0 <= i < c.len() ==> !s.contains(#[trigger] c[i]),
{
    lemma_cycle_unordered_from(deps, s, c, 0);
    assert forall|i: int| 0 <= i < c.len() implies !s.contains(#[trigger] c[i]) by {
        if s.contains(c[i]) {
            let q = choose|q: int| 0 <= q < s.len() && s[q] == c[i];
            assert(s[q] == c[i]);
        }
    }
}

/// From position `p` on, a load order holds no name of a circle.
proof fn lemma_cycle_unordered_from(deps: Seq<(Seq<char>, Seq<Seq<char>>)>, s: Seq<Seq<char>>, c: Seq<Seq<char>>, p: int)
    requires
        settled(deps, s),
        self_required(deps, c),
        0 <= p <= s.len(),
    ensures
        forall|q: int, i: int| p <= q < s.len() && 0 <= i < c.len() ==> #[trigger] s[q] != #[trigger] c[i],
    decreases s.len() - p,
{
    if p < s.len() {
        lemma_cycle_unordered_from(deps, s, c, p + 1);
        assert forall|i: int| 0 <= i < c.len() implies s[p] != #[trigger] c[i] by {
            if s[p] == c[i] {
                assert(required_within(deps, c, c[i]));
                let j = choose|j: int| 0 <= j < c.len() && #[trigger] depends(deps, c[j], c[i]);
                assert(depends(deps, c[j], s[p]));
                let p2 = choose|p2: int| p < p2 < s.len() && s[p2] == c[j];
                assert(s[p2] != c[j]);
            }
        }
    }
}

/// When every required name is a module, a load order takes in every module
/// exactly when no group of modules requires itself in a circle.
pub proof fn lemma_full_order_iff_acyclic(deps: Seq<(Seq<char>, Seq<Seq<char>>)>, s: Seq<Seq<char>>)
    requires
        distinct(key_names(deps)),
        closed(deps),
        settled(deps, s),
    ensures
        s.len() == deps.len() <==> !exists|c: Seq<Seq<char>>| self_required(deps, c),
{
    if exists|c: Seq<Seq<char>>| self_required(deps, c) {
        let c = choose|c: Seq<Seq<char>>| self_required(deps, c);
        lemma_cycle_blocks_full(deps, s, c);
    }
    if s.len() != deps.len() {
        lemma_short_has_cycle(deps, s);
    }
}

/// A circle leaves a load order short of some module.
proof fn lemma_cycle_blocks_full(deps: Seq<(Seq<char>, Seq<Seq<char>>)>, s: Seq<Seq<char>>, c: Seq<Seq<char>>)
    requires
        distinct(key_names(deps)),
        closed(deps),
        settled(deps, s),
        self_required(deps, c),
    ensures
        s.len() < deps.len(),
{
    let keys = key_names(deps);
    lemma_node_names_closed(deps, deps.len() as int);
    assert(node_names(deps) == keys);
    lemma_cycle_unordered(deps, s, c);
    assert(required_within(deps, c, c[0]));
    let j = choose|j: int| 0 <= j < c.len() && #[trigger] depends(deps, c[j], c[0]);
    assert(depends(deps, c[j], c[0]));
    let t = choose|t: int| 0 <= t < deps.len() && #[trigger] key_names(deps)[t] == c[j] && dep_lists(deps)[t].contains(c[0]);
    let k = choose|k: int| 0 <= k < dep_lists(deps)[t].len() && dep_lists(deps)[t][k] == c[0];
    assert(keys.contains(dep_lists(deps)[t][k]));
    assert(!s.contains(c[0]));
    lemma_missing_shorter(s, keys, c[0]);
}

/// The module names that `s` leaves out.
pub open spec fn missing_names(deps: Seq<(Seq<char>, Seq<Seq<char>>)>, s: Seq<Seq<char>>) -> Seq<Seq<char>> {
    key_names(deps).filter(|x: Seq<char>| !s.contains(x))
}

/// A load order short of some module leaves a circle among the modules
/// it misses.
proof fn lemma_short_has_cycle(deps: Seq<(Seq<char>, Seq<Seq<char>>)>, s: Seq<Seq<char>>)
    requires
        distinct(key_names(deps)),
        closed(deps),
        settled(deps, s),
        s.len() != deps.len(),
    ensures
        exists|c: Seq<Seq<char>>| self_required(deps, c),
{
    let keys = key_names(deps);
    lemma_node_names_closed(deps, deps.len() as int);
    assert(node_names(deps) == keys);
    let missing = missing_names(deps, s);
    assert(missing.len() > 0) by {
        if missing.len() == 0 {
            assert forall|i: int| 0 <= i < keys.len() implies s.contains(#[trigger] keys[i]) by {
                if !s.contains(keys[i]) {
                    keys.lemma_filter_contains(|x: Seq<char>| !s.contains(x), i);
                }
            }
            assert forall|i: int| 0 <= i < s.len() implies keys.contains(#[trigger] s[i]) by {
                assert(node_names(deps).contains(s[i]));
            }
            lemma_same_len(s, keys);
        }
    }
    lemma_missing_required(deps, s);
}

/// The modules a load order leaves out, if any, form a circle.
proof fn lemma_missing_required(deps: Seq<(Seq<char>, Seq<Seq<char>>)>, s: Seq<Seq<char>>)
    requires
        node_names(deps) == key_names(deps),
        settled(deps, s),
        missing_names(deps, s).len() > 0,
    ensures
        self_required(deps, missing_names(deps, s)),
{
    let keys = key_names(deps);
    let pred = |x: Seq<char>| !s.contains(x);
    assert(missing_names(deps, s) == keys.filter(pred));
    assert forall|i: int| 0 <= i < missing_names(deps, s).len() implies #[trigger] required_within(deps, missing_names(deps, s), missing_names(deps, s)[i]) by {
        let missing = missing_names(deps, s);
        let x = missing[i];
        keys.lemma_filter_pred(pred, i);
        assert(missing.contains(x));
        keys.lemma_filter_contains_rev(pred, x);
        assert(node_names(deps).contains(x) && !s.contains(x));
        let m = choose|m: Seq<char>| node_names(deps).contains(m) && !s.contains(m) && #[trigger] depends(deps, m, x);
        let mi = choose|mi: int| 0 <= mi < keys.len() && keys[mi] == m;
        keys.lemma_filter_contains(pred, mi);
        let j = choose|j: int| 0 <= j < missing.len() && missing[j] == m;
        assert(depends(deps, missing[j], missing[i]));
    }
}

/// Two lists of distinct names holding the same names have the same length.
proof fn lemma_same_len(s: Seq<Seq<char>>, k: Seq<Seq<char>>)
    requires
        distinct(s),
        distinct(k),
        forall|i: int| 0 <= i < s.len() ==> k.contains(#[trigger] s[i]),
        forall|i: int| 0 <= i < k.len() ==> s.contains(#[trigger] k[i]),
    ensures
        s.len() == k.len(),
{
    lemma_distinct_no_dup(s);
    lemma_distinct_no_dup(k);
    s.unique_seq_to_set();
    k.unique_seq_to_set();
    assert forall|x: Seq<char>| s.to_set().contains(x) <==> k.to_set().contains(x) by {
        if s.contains(x) {
            let i = choose|i: int| 0 <= i < s.len() && s[i] == x;
            assert(k.contains(s[i]));
        }
        if k.contains(x) {
            let i = choose|i: int| 0 <= i < k.len() && k[i] == x;
            assert(s.contains(k[i]));
        }
    }
    assert(s.to_set() =~= k.to_set());
}

/// `distinct` in the terms of vstd.
proof fn lemma_distinct_no_dup(s: Seq<Seq<char>>)
    requires
        distinct(s),
    ensures
        s.no_duplicates(),
{
    assert forall|i: int, j: int| 0 <= i < s.len() && 0 <= j < s.len() && i != j implies s[i] != s[j] by {
        if i > j {
            assert(s[j] != s[i]);
        }
    }
}

/// A list of distinct names of `k` that misses one of them is shorter.
proof fn lemma_missing_shorter(s: Seq<Seq<char>>, k: Seq<Seq<char>>, x: Seq<char>)
    requires
        distinct(s),
        distinct(k),
        forall|i: int| 0 <= i < s.len() ==> k.contains(#[trigger] s[i]),
        k.contains(x),
        !s.contains(x),
    ensures
        s.len() < k.len(),
{
    lemma_distinct_no_dup(s);
    lemma_distinct_no_dup(k);
    s.unique_seq_to_set();
    k.unique_seq_to_set();
    let ks = k.to_set().remove(x);
    assert forall|y: Seq<char>| s.to_set().contains(y) implies ks.contains(y) by {
        let i = choose|i: int| 0 <= i < s.len() && s[i] == y;
        assert(k.contains(s[i]));
    }
    assert(s.to_set().subset_of(ks));
    vstd::seq_lib::seq_to_set_is_finite(k);
    vstd::set::axiom_set_remove_len(k.to_set(), x);
    assert(k.to_set().contains(x));
    vstd::set_lib::lemma_len_subset(s.to_set(), ks);
}

/// Adding names that are all present changes nothing.
proof fn lemma_add_names_present(acc: Seq<Seq<char>>, ns: Seq<Seq<char>>)
    requires
        forall|k: int| 0 <= k < ns.len() ==> acc.contains(#[trigger] ns[k]),
    ensures
        add_names(acc, ns) == acc,
    decreases ns.len(),
{
    if ns.len() > 0 {
        assert forall|k: int| 0 <= k < ns.drop_last().len() implies acc.contains(#[trigger] ns.drop_last()[k]) by {
            assert(ns.drop_last()[k] == ns[k]);
        }
        lemma_add_names_present(acc, ns.drop_last());
        assert(acc.contains(ns[ns.len() - 1]));
    }
}

/// In a closed graph the names are the module names.
proof fn lemma_node_names_closed(deps: Seq<(Seq<char>, Seq<Seq<char>>)>, k: int)
    requires
        closed(deps),
        0 <= k <= deps.len(),
    ensures
        names_upto(deps, k) == key_names(deps),
    decreases k,
{
    if k > 0 {
        lemma_node_names_closed(deps, k - 1);
        assert forall|j: int| 0 <= j < dep_lists(deps)[k - 1].len() implies key_names(deps).contains(#[trigger] dep_lists(deps)[k - 1][j]) by {
        }
        lemma_add_names_present(key_names(deps), dep_lists(deps)[k - 1]);
    }
}


// ---------------------------------------------------------------------------
// Ordering template sources by their `require` calls
// ---------------------------------------------------------------------------

/// The names of `sources`, each once, in order of first appearance.
pub open spec fn source_names(sources: Seq<(Seq<char>, Seq<char>)>) -> Seq<Seq<char>> {
    add_names(Seq::empty(), sources.map_values(|p: (Seq<char>, Seq<char>)| p.0))
}

/// The source that a module name stands for: the last one given for it.
pub open spec fn source_of(sources: Seq<(Seq<char>, Seq<char>)>, name: Seq<char>) -> Seq<char> {
    match last_value(sources, name) {
        Some(v) => v,
        None => Seq::empty(),
    }
}

/// Each module name after its normalized form.
pub open spec fn base_pairs(sources: Seq<(Seq<char>, Seq<char>)>) -> Seq<(Seq<char>, Seq<char>)> {
    sources.map_values(|p: (Seq<char>, Seq<char>)| (module_base(p.0), p.0))
}

/// The modules that required paths name, in order; a path that names no
/// module is skipped. A path names the last module with the same
/// normalized name.
pub open spec fn resolved_targets(sources: Seq<(Seq<char>, Seq<char>)>, targets: Seq<Seq<char>>) -> Seq<Seq<char>>
    decreases targets.len(),
{
    if targets.len() == 0 {
        Seq::empty()
    } else {
        let r = resolved_targets(sources, targets.drop_last());
        match last_value(base_pairs(sources), module_base(targets.last())) {
            Some(o) => r.push(o),
            None => r,
        }
    }
}

/// The modules that the source of `name` requires.
pub open spec fn requires_of(sources: Seq<(Seq<char>, Seq<char>)>, name: Seq<char>) -> Seq<Seq<char>> {
    resolved_targets(sources, group_ones(regex_captures(REQUIRE_PATTERN@, source_of(sources, name))))
}

/// The dependency graph of `sources`.
pub open spec fn source_graph(sources: Seq<(Seq<char>, Seq<char>)>) -> Seq<(Seq<char>, Seq<Seq<char>>)> {
    source_names(sources).map_values(|n: Seq<char>| (n, requires_of(sources, n)))
}

/// `ov` is a load order of the sources `sv`: every module once, each before
/// the modules that require it, each with its source.
pub open spec fn ordering_of(sv: Seq<(Seq<char>, Seq<char>)>, ov: Seq<(Seq<char>, Seq<char>)>) -> bool {
    &&& ov.len() == source_names(sv).len()
    &&& settled(source_graph(sv), ov.map_values(|p: (Seq<char>, Seq<char>)| p.0))
    &&& forall|i: int| 0 <= i < ov.len() ==> (#[trigger] ov[i]).1 == source_of(sv, ov[i].0)
}

/// The first components of string pairs.
pub open spec fn first_views(v: Seq<(String, String)>) -> Seq<Seq<char>> {
    v.map_values(|p: (String, String)| p.0@)
}

/// A name is in `add_names(acc, ns)` when it is in `acc` or in `ns`.
proof fn lemma_add_names_members(acc: Seq<Seq<char>>, ns: Seq<Seq<char>>, x: Seq<char>)
    ensures
        add_names(acc, ns).contains(x) <==> (acc.contains(x) || ns.contains(x)),
    decreases ns.len(),
{
    if ns.len() > 0 {
        lemma_add_names_members(acc, ns.drop_last(), x);
        let a = add_names(acc, ns.drop_last());
        if ns.drop_last().contains(x) {
            let i = choose|i: int| 0 <= i < ns.drop_last().len() && ns.drop_last()[i] == x;
            assert(ns[i] == x);
        }
        if ns.contains(x) && !ns.drop_last().contains(x) {
            let i = choose|i: int| 0 <= i < ns.len() && ns[i] == x;
            if i < ns.len() - 1 {
                assert(ns.drop_last()[i] == x);
            }
            assert(x == ns.last());
        }
        if a.contains(x) || x == ns.last() {
            if !a.contains(ns.last()) {
                if a.contains(x) {
                    let i = choose|i: int| 0 <= i < a.len() && a[i] == x;
                    assert(a.push(ns.last())[i] == x);
                } else {
                    assert(a.push(ns.last())[a.len() as int] == x);
                }
            }
        }
        if add_names(acc, ns).contains(x) && !a.contains(x) {
            let i = choose|i: int| 0 <= i < add_names(acc, ns).len() && add_names(acc, ns)[i] == x;
            if i < a.len() {
                assert(a[i] == x);
            }
        }
    }
}

/// The last value for a key is the value of one of its pairs.
proof fn lemma_last_value_from(ps: Seq<(Seq<char>, Seq<char>)>, k: Seq<char>)
    ensures
        last_value(ps, k) matches Some(v) ==> exists|i: int| 0 <= i < ps.len() && ps[i].1 == v,
        last_value(ps, k) is None ==> forall|i: int| 0 <= i < ps.len() ==> ps[i].0 != k,
    decreases ps.len(),
{
    if ps.len() > 0 {
        lemma_last_value_from(ps.drop_last(), k);
        if last_value(ps.drop_last(), k) is Some && ps.last().0 != k {
            let i = choose|i: int| 0 <= i < ps.drop_last().len() && ps.drop_last()[i].1 == last_value(ps, k)->0;
            assert(ps[i] == ps.drop_last()[i]);
        }
        if last_value(ps, k) is None {
            assert forall|i: int| 0 <= i < ps.len() implies ps[i].0 != k by {
                if i < ps.len() - 1 {
                    assert(ps[i] == ps.drop_last()[i]);
                }
            }
        }
    }
}

/// Dependency totals grow with the modules counted.
proof fn lemma_dep_total_mono(a: Seq<(Seq<char>, Seq<Seq<char>>)>, k: int, m: int)
    requires
        0 <= k <= m,
    ensures
        dep_total(a, k) <= dep_total(a, m),
    decreases m - k,
{
    if k < m {
        lemma_dep_total_mono(a, k, m - 1);
    }
}

/// Dependency totals depend only on the modules counted.
proof fn lemma_dep_total_prefix(a: Seq<(Seq<char>, Seq<Seq<char>>)>, b: Seq<(Seq<char>, Seq<Seq<char>>)>, k: int)
    requires
        0 <= k <= a.len(),
        k <= b.len(),
        forall|t: int| 0 <= t < k ==> a[t] == b[t],
    ensures
        dep_total(a, k) == dep_total(b, k),
    decreases k,
{
    if k > 0 {
        lemma_dep_total_prefix(a, b, k - 1);
    }
}

/// Orders `sources` so that each comes before every source that requires it
/// (`require("name")`, with or without a `.lua` or `.luat` extension). A
/// name given twice keeps its last source. `Err` when some sources cannot
/// be ordered.
pub fn order_sources(sources: Vec<(String, String)>) -> (r: Result<Vec<(String, String)>, LuatError>)
    ensures
        regex_accepts(REQUIRE_PATTERN@),
        r matches Err(e) ==> e is InvalidTemplate,
        dep_total(source_graph(pair_views(sources@)), source_names(pair_views(sources@)).len() as int) < usize::MAX ==> match r {
            Ok(out) => ordering_of(pair_views(sources@), pair_views(out@)),
            Err(e) => is_cycle_error(e) && exists|s: Seq<Seq<char>>| settled(source_graph(pair_views(sources@)), s)
                && s.len() != source_names(pair_views(sources@)).len(),
        },
{
    let ghost sv = pair_views(sources@);
    let ghost keys = sv.map_values(|p: (Seq<char>, Seq<char>)| p.0);
    proof {
        assert(crate::patterns::known_pattern(REQUIRE_PATTERN@));
    }
    let probe = regex_pieces(REQUIRE_PATTERN, "");
    if probe.is_err() {
        return Err(LuatError::InvalidTemplate(owned("Invalid require pattern")));
    }
    let mut names = StrSet::new();
    let mut table = StrMap::new();
    let mut norm = StrMap::new();
    let mut i: usize = 0;
    proof {
        assert(keys.take(0) =~= Seq::<Seq<char>>::empty());
        assert forall|x: Seq<char>| #[trigger] table.lookup(x) == last_value(sv.take(0), x) by {
            assert(sv.take(0).len() == 0);
        }
        assert forall|x: Seq<char>| #[trigger] norm.lookup(x) == last_value(base_pairs(sv).take(0), x) by {
            assert(base_pairs(sv).take(0).len() == 0);
        }
    }
    while i < sources.len()
        invariant
            i <= sources@.len() == sv.len() == keys.len(),
            sv == pair_views(sources@),
            keys == sv.map_values(|p: (Seq<char>, Seq<char>)| p.0),
            names.wf(),
            names@ == add_names(Seq::empty(), keys.take(i as int)),
            forall|x: Seq<char>| #[trigger] table.lookup(x) == last_value(sv.take(i as int), x),
            forall|x: Seq<char>| #[trigger] norm.lookup(x) == last_value(base_pairs(sv).take(i as int), x),
        decreases sources@.len() - i,
    {
        let name = sources[i].0.as_str();
        names.insert(name);
        let base = normalize_module_name(name);
        proof {
            use_type_invariant(&table);
            use_type_invariant(&norm);
        }
        let ghost t0 = table;
        let ghost n0 = norm;
        table.insert(name, sources[i].1.as_str());
        norm.insert(base.as_str(), name);
        proof {
            assert(sv[i as int] == (name@, sources@[i as int].1@));
            assert(base_pairs(sv)[i as int] == (module_base(name@), name@));
            let ps = sv.take(i + 1);
            assert(ps.drop_last() =~= sv.take(i as int));
            assert(ps.last() == sv[i as int]);
            let bs = base_pairs(sv).take(i + 1);
            assert(bs.drop_last() =~= base_pairs(sv).take(i as int));
            assert(bs.last() == base_pairs(sv)[i as int]);
            assert forall|x: Seq<char>| #[trigger] table.lookup(x) == last_value(sv.take(i + 1), x) by {
                if x != name@ {
                    assert(table.lookup(x) == t0.lookup(x));
                }
            }
            assert forall|x: Seq<char>| #[trigger] norm.lookup(x) == last_value(base_pairs(sv).take(i + 1), x) by {
                if x != base@ {
                    assert(norm.lookup(x) == n0.lookup(x));
                }
            }
            let ns = keys.take(i + 1);
            assert(ns.drop_last() =~= keys.take(i as int));
            assert(ns.last() == name@);
        }
        i = i + 1;
    }
    proof {
        assert(keys.take(i as int) =~= keys);
        assert(base_pairs(sv).take(i as int) =~= base_pairs(sv));
        assert(sv.take(i as int) =~= sv);
        assert(names@ == source_names(sv));
    }
    let items = names.items();
    let mut deps: Vec<(String, Vec<String>)> = Vec::new();
    let mut total: usize = 0;
    let mut k: usize = 0;
    while k < items.len()
        invariant
            k <= items@.len() == source_names(sv).len(),
            views(items@) == source_names(sv),
            sv.len() == keys.len(),
            keys == sv.map_values(|p: (Seq<char>, Seq<char>)| p.0),
            sv == pair_views(sources@),
            forall|x: Seq<char>| #[trigger] table.lookup(x) == last_value(sv, x),
            forall|x: Seq<char>| #[trigger] norm.lookup(x) == last_value(base_pairs(sv), x),
            regex_accepts(REQUIRE_PATTERN@),
            graph_view(deps@) == source_graph(sv).take(k as int),
            total == dep_total(graph_view(deps@), k as int),
            total < usize::MAX,
        decreases items@.len() - k,
    {
        let name = items[k].as_str();
        proof {
            assert(source_names(sv)[k as int] == name@);
            lemma_add_names_members(Seq::empty(), keys, name@);
            assert(keys.contains(name@));
            let j = choose|j: int| 0 <= j < keys.len() && keys[j] == name@;
            lemma_last_value_from(sv, name@);
            assert(sv[j].0 == name@);
        }
        proof {
            use_type_invariant(&table);
        }
        let src = match table.get(name) {
            Some(v) => v.as_str(),
            None => "",
        };
        proof {
            assert(crate::patterns::known_pattern(REQUIRE_PATTERN@));
        }
        let caps = match regex_pieces(REQUIRE_PATTERN, src) {
            Ok(v) => v.1,
            Err(_) => Vec::new(),
        };
        let ghost targets = group_ones(crate::collections::pair_views(caps@));
        let mut dl: Vec<String> = Vec::new();
        let mut j: usize = 0;
        proof {
            assert(src@ == source_of(sv, name@));
            assert(targets.take(0) =~= Seq::<Seq<char>>::empty());
        }
        while j < caps.len()
            invariant
                j <= caps@.len() == targets.len(),
                targets == group_ones(crate::collections::pair_views(caps@)),
                forall|x: Seq<char>| #[trigger] norm.lookup(x) == last_value(base_pairs(sv), x),
                views(dl@) == resolved_targets(sv, targets.take(j as int)),
            decreases caps@.len() - j,
        {
            let base = normalize_module_name(caps[j].1.as_str());
            let ghost before = views(dl@);
            proof {
                use_type_invariant(&norm);
            }
            match norm.get(base.as_str()) {
                Some(o) => {
                    dl.push(owned(o.as_str()));
                },
                None => {},
            }
            proof {
                let ts = targets.take(j + 1);
                assert(ts.drop_last() =~= targets.take(j as int));
                assert(ts.last() == caps@[j as int].1@);
                assert(views(dl@) =~= resolved_targets(sv, ts));
            }
            j = j + 1;
        }
        proof {
            assert(targets.take(j as int) =~= targets);
            assert(views(dl@) == requires_of(sv, name@));
        }
        if dl.len() >= usize::MAX - total {
            proof {
                let ng = graph_view(deps@).push((name@, requires_of(sv, name@)));
                assert(ng =~= source_graph(sv).take(k + 1));
                lemma_dep_total_prefix(ng, graph_view(deps@), k as int);
                lemma_dep_total_prefix(ng, source_graph(sv), k + 1);
                lemma_dep_total_mono(source_graph(sv), k + 1, source_graph(sv).len() as int);
            }
            return Err(LuatError::InvalidTemplate(owned("Too many module dependencies")));
        }
        let ghost old_g = graph_view(deps@);
        total = total + dl.len();
        deps.push((owned(name), dl));
        proof {
            let ng = graph_view(deps@);
            assert(ng =~= old_g.push((name@, requires_of(sv, name@))));
            assert(ng =~= source_graph(sv).take(k + 1));
            lemma_dep_total_prefix(ng, old_g, k as int);
        }
        k = k + 1;
    }
    proof {
        assert(source_graph(sv).take(k as int) =~= source_graph(sv));
        assert(key_names(source_graph(sv)) =~= source_names(sv));
    }
    let sorted = match topo_sort(&deps) {
        Ok(v) => v,
        Err(e) => {
            return Err(e);
        },
    };
    let mut out: Vec<(String, String)> = Vec::new();
    let mut t: usize = 0;
    proof {
        assert(first_views(out@) =~= views(sorted@).take(0));
    }
    while t < sorted.len()
        invariant
            t <= sorted@.len(),
            first_views(out@) == views(sorted@).take(t as int),
            out@.len() == t,
            forall|x: Seq<char>| #[trigger] table.lookup(x) == last_value(sv, x),
            forall|i: int| 0 <= i < out@.len() ==> (#[trigger] out@[i]).1@ == source_of(sv, out@[i].0@),
        decreases sorted@.len() - t,
    {
        let nm = sorted[t].as_str();
        proof {
            use_type_invariant(&table);
        }
        let src = match table.get(nm) {
            Some(v) => owned(v.as_str()),
            None => String::new(),
        };
        let ghost before = first_views(out@);
        out.push((owned(nm), src));
        proof {
            assert(first_views(out@) =~= before.push(nm@));
            assert(first_views(out@) =~= views(sorted@).take(t + 1));
        }
        t = t + 1;
    }
    proof {
        assert(views(sorted@).take(t as int) =~= views(sorted@));
        assert(pair_views(out@).map_values(|p: (Seq<char>, Seq<char>)| p.0) =~= first_views(out@));
        assert forall|i: int| 0 <= i < pair_views(out@).len() implies (#[trigger] pair_views(out@)[i]).1 == source_of(sv, pair_views(out@)[i].0) by {
            assert(pair_views(out@)[i] == (out@[i].0@, out@[i].1@));
        }
    }
    Ok(out)
}

} // verus!
