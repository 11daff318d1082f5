//! Reachability in a graph given by adjacency lists.
use vstd::prelude::*;
use vstd::set_lib::{lemma_int_range, lemma_len_subset, set_int_range};

verus! {

/// Whether `adj` has an edge from `a` to `b`.
pub open spec fn edge(adj: Seq<Seq<usize>>, a: usize, b: usize) -> bool {
    a < adj.len() && adj[a as int].contains(b)
}

/// The adjacency lists of `adj` as sequences.
pub open spec fn lists_of(adj: Seq<Vec<usize>>) -> Seq<Seq<usize>> {
    adj.map_values(|list: Vec<usize>| list@)
}

/// Step `i` of `path` follows an edge.
pub open spec fn path_step(adj: Seq<Seq<usize>>, path: Seq<usize>, i: int) -> bool {
    edge(adj, path[i], path[i + 1])
}

/// `path` is a non-empty walk along the edges of `adj`.
pub open spec fn is_path(adj: Seq<Seq<usize>>, path: Seq<usize>) -> bool {
    &&& path.len() >= 1
    &&& forall|i: int| 0 <= i < path.len() - 1 ==> #[trigger] path_step(adj, path, i)
}

/// Some walk along the edges of `adj` leads from `a` to `b` (possibly the
/// empty walk, when `a == b`).
pub open spec fn reaches(adj: Seq<Seq<usize>>, a: usize, b: usize) -> bool {
    exists|path: Seq<usize>| #[trigger] is_path(adj, path) && path[0] == a && path.last() == b
}

/// Every edge of `adj` leads to a node of `adj`.
pub open spec fn adjacency_closed(adj: Seq<Seq<usize>>) -> bool {
    forall|a: int, k: int| 0 <= a < adj.len() && 0 <= k < adj[a].len() ==> #[trigger] adj[a][k] < adj.len()
}

/// Some node of `starts` reaches `v`.
pub open spec fn reached_from(adj: Seq<Seq<usize>>, starts: Seq<usize>, v: usize) -> bool {
    exists|j: int| 0 <= j < starts.len() && reaches(adj, #[trigger] starts[j], v)
}

pub proof fn lemma_reaches_self(adj: Seq<Seq<usize>>, a: usize)
    ensures
        reaches(adj, a, a),
{
    let path = seq![a];
    assert(is_path(adj, path));
}

/// A walk extended by one edge is a walk.
pub proof fn lemma_reaches_step(adj: Seq<Seq<usize>>, a: usize, b: usize, c: usize)
    requires
        reaches(adj, a, b),
        edge(adj, b, c),
    ensures
        reaches(adj, a, c),
{
    let path = choose|path: Seq<usize>| #[trigger] is_path(adj, path) && path[0] == a && path.last() == b;
    let longer = path.push(c);
    assert forall|i: int| 0 <= i < longer.len() - 1 implies #[trigger] path_step(adj, longer, i) by {
        if i < path.len() - 1 {
            assert(path_step(adj, path, i));
        }
    }
    assert(is_path(adj, longer));
}

/// Walks compose: what `b` reaches, every node that reaches `b` reaches.
pub proof fn lemma_reaches_trans(adj: Seq<Seq<usize>>, a: usize, b: usize, c: usize)
    requires
        reaches(adj, a, b),
        reaches(adj, b, c),
    ensures
        reaches(adj, a, c),
{
    let p1 = choose|path: Seq<usize>| #[trigger] is_path(adj, path) && path[0] == a && path.last() == b;
    let p2 = choose|path: Seq<usize>| #[trigger] is_path(adj, path) && path[0] == b && path.last() == c;
    let joined = p1 + p2.drop_first();
    assert forall|i: int| 0 <= i < joined.len() - 1 implies #[trigger] path_step(adj, joined, i) by {
        if i < p1.len() - 1 {
            assert(path_step(adj, p1, i));
            assert(joined[i] == p1[i] && joined[i + 1] == p1[i + 1]);
        } else if i == p1.len() - 1 {
            assert(path_step(adj, p2, 0));
            assert(joined[i] == p1.last() && joined[i + 1] == p2[1]);
        } else {
            let j = i - p1.len() + 1;
            assert(path_step(adj, p2, j));
            assert(joined[i] == p2[j] && joined[i + 1] == p2[j + 1]);
        }
    }
    if p2.len() == 1 {
        assert(joined =~= p1);
    } else {
        assert(joined.last() == p2.last());
    }
    assert(is_path(adj, joined));
}

/// A set of nodes that holds `a` and is closed under the edges holds every
/// node that `a` reaches.
pub proof fn lemma_closed_set_holds_reached(adj: Seq<Seq<usize>>, seen: Seq<bool>, a: usize, b: usize)
    requires
        seen.len() == adj.len(),
        a < seen.len(),
        seen[a as int],
        forall|u: usize, w: usize| u < seen.len() && seen[u as int] && #[trigger] edge(adj, u, w) ==> w < seen.len() && seen[w as int],
        reaches(adj, a, b),
    ensures
        b < seen.len() && seen[b as int],
{
    let path = choose|path: Seq<usize>| #[trigger] is_path(adj, path) && path[0] == a && path.last() == b;
    lemma_closed_set_holds_path(adj, seen, path, path.len() - 1);
}

proof fn lemma_closed_set_holds_path(adj: Seq<Seq<usize>>, seen: Seq<bool>, path: Seq<usize>, i: int)
    requires
        seen.len() == adj.len(),
        is_path(adj, path),
        0 <= i < path.len(),
        path[0] < seen.len(),
        seen[path[0] as int],
        forall|u: usize, w: usize| u < seen.len() && seen[u as int] && #[trigger] edge(adj, u, w) ==> w < seen.len() && seen[w as int],
    ensures
        path[i] < seen.len() && seen[path[i] as int],
    decreases i,
{
    if i > 0 {
        lemma_closed_set_holds_path(adj, seen, path, i - 1);
        assert(path_step(adj, path, i - 1));
    }
}

/// The nodes that some node of `starts` reaches, as a flag per node.
pub fn reachable_from(adj: &Vec<Vec<usize>>, starts: &Vec<usize>) -> (seen: Vec<bool>)
    requires
        adjacency_closed(lists_of(adj@)),
        forall|j: int| 0 <= j < starts@.len() ==> #[trigger] starts@[j] < adj@.len(),
    ensures
        seen@.len() == adj@.len(),
        forall|v: usize| v < adj@.len() ==> (seen@[v as int] <==> reached_from(lists_of(adj@), starts@, v)),
{
    let ghost g = lists_of(adj@);
    let n = adj.len();
    let mut seen: Vec<bool> = Vec::new();
    while seen.len() < n
        invariant
            seen@.len() <= n,
            n == g.len(),
            g == lists_of(adj@),
            n == adj@.len(),
            forall|v: int| 0 <= v < seen@.len() ==> !seen@[v],
        decreases n - seen@.len(),
    {
        seen.push(false);
    }
    let ghost mut marked: Set<int> = Set::empty();
    let mut count: usize = 0;
    let mut work: Vec<usize> = Vec::new();
    let mut j: usize = 0;
    proof {
        lemma_int_range(0, n as int);
    }
    while j < starts.len()
        invariant
            n == g.len(),
            g == lists_of(adj@),
            n == adj@.len(),
            seen@.len() == n,
            j <= starts@.len(),
            forall|k: int| 0 <= k < starts@.len() ==> #[trigger] starts@[k] < g.len(),
            forall|v: int| 0 <= v < n ==> (seen@[v] <==> marked.contains(v)),
            marked.subset_of(set_int_range(0, n as int)),
            marked.finite(),
            marked.len() == count,
            set_int_range(0, n as int).finite(),
            set_int_range(0, n as int).len() == n,
            forall|v: usize| v < n && #[trigger] seen@[v as int] ==> exists|k: int| 0 <= k < j && starts@[k] == v,
            forall|k: int| 0 <= k < j ==> #[trigger] seen@[starts@[k] as int],
            forall|k: int| 0 <= k < work@.len() ==> #[trigger] work@[k] < n && seen@[work@[k] as int],
            forall|v: usize| v < n && seen@[v as int] ==> #[trigger] work@.contains(v),
        decreases starts@.len() - j,
    {
        let s = starts[j];
        if !seen[s] {
            proof {
                marked = marked.insert(s as int);
                lemma_len_subset(marked, set_int_range(0, n as int));
            }
            let ghost before_set = seen@;
            let ghost before_push = work@;
            seen.set(s, true);
            count += 1;
            work.push(s);
            proof {
                assert forall|v: usize| v < n && seen@[v as int] implies #[trigger] work@.contains(v) by {
                    if v == s {
                        assert(work@[work@.len() - 1] == s);
                    } else {
                        assert(before_set[v as int]);
                        assert(before_push.contains(v));
                        let i = choose|i: int| 0 <= i < before_push.len() && before_push[i] == v;
                        assert(work@[i] == v);
                    }
                }
            }
        }
        j += 1;
    }
    proof {
        lemma_len_subset(marked, set_int_range(0, n as int));
        assert forall|v: usize| v < n && seen@[v as int] implies reached_from(g, starts@, v) by {
            let k = choose|k: int| 0 <= k < j && starts@[k] == v;
            lemma_reaches_self(g, v);
        }
    }
    while work.len() > 0
        invariant
            n == g.len(),
            g == lists_of(adj@),
            n == adj@.len(),
            seen@.len() == n,
            adjacency_closed(g),
            forall|k: int| 0 <= k < starts@.len() ==> #[trigger] seen@[starts@[k] as int],
            forall|k: int| 0 <= k < starts@.len() ==> #[trigger] starts@[k] < g.len(),
            forall|v: int| 0 <= v < n ==> (seen@[v] <==> marked.contains(v)),
            marked.subset_of(set_int_range(0, n as int)),
            marked.finite(),
            marked.len() == count,
            set_int_range(0, n as int).finite(),
            set_int_range(0, n as int).len() == n,
            count <= n,
            forall|k: int| 0 <= k < work@.len() ==> #[trigger] work@[k] < n && seen@[work@[k] as int],
            forall|v: usize| v < n && seen@[v as int] ==> reached_from(g, starts@, v),
            forall|u: usize, w: usize|
                u < n && seen@[u as int] && !work@.contains(u) && #[trigger] edge(g, u, w) ==> w < n && seen@[w as int],
        decreases n - count, work@.len(),
    {
        proof {
            lemma_len_subset(marked, set_int_range(0, n as int));
        }
        let ghost before_pop = work@;
        let u = work.pop().unwrap();
        let ghost popped = work@;
        proof {
            assert(before_pop == popped.push(u));
            assert forall|v: usize| before_pop.contains(v) implies popped.contains(v) || v == u by {
                let i = choose|i: int| 0 <= i < before_pop.len() && before_pop[i] == v;
                if i < popped.len() {
                    assert(popped[i] == v);
                }
            }
        }
        let ghost count0 = count;
        let succs = &adj[u];
        let mut k: usize = 0;
        while k < succs.len()
            invariant
                n == g.len(),
                g == lists_of(adj@),
                n == adj@.len(),
            g == lists_of(adj@),
            n == adj@.len(),
                seen@.len() == n,
                adjacency_closed(g),
                u < n,
                seen@[u as int],
                succs@ == g[u as int],
                k <= succs@.len(),
                forall|k2: int| 0 <= k2 < starts@.len() ==> #[trigger] starts@[k2] < g.len(),
                forall|k2: int| 0 <= k2 < starts@.len() ==> #[trigger] seen@[starts@[k2] as int],
                forall|v: int| 0 <= v < n ==> (seen@[v] <==> marked.contains(v)),
                marked.subset_of(set_int_range(0, n as int)),
                marked.finite(),
                marked.len() == count,
                count <= n,
                set_int_range(0, n as int).finite(),
                set_int_range(0, n as int).len() == n,
                forall|k2: int| 0 <= k2 < work@.len() ==> #[trigger] work@[k2] < n && seen@[work@[k2] as int],
                forall|v: usize| v < n && seen@[v as int] ==> reached_from(g, starts@, v),
                forall|k2: int| 0 <= k2 < k ==> #[trigger] seen@[succs@[k2] as int],
                forall|v: usize| popped.contains(v) ==> #[trigger] work@.contains(v),
                forall|u2: usize, w: usize|
                    u2 < n && seen@[u2 as int] && !work@.contains(u2) && u2 != u && #[trigger] edge(g, u2, w) ==> w < n && seen@[w as int],
                count >= count0,
                count == count0 ==> work@.len() == popped.len(),
            decreases succs@.len() - k,
        {
            let w = succs[k];
            assert(w < n);
            if !seen[w] {
                proof {
                    lemma_len_subset(marked, set_int_range(0, n as int));
                    assert(reached_from(g, starts@, u));
                    let jj = choose|jj: int| 0 <= jj < starts@.len() && reaches(g, #[trigger] starts@[jj], u);
                    assert(edge(g, u, w)) by {
                        assert(g[u as int][k as int] == w);
                    }
                    lemma_reaches_step(g, starts@[jj], u, w);
                    marked = marked.insert(w as int);
                    lemma_len_subset(marked, set_int_range(0, n as int));
                }
                let ghost before_set = seen@;
                seen.set(w, true);
                count += 1;
                let ghost before_push = work@;
                work.push(w);
                proof {
                    assert forall|k2: int| 0 <= k2 < starts@.len() implies #[trigger] seen@[starts@[k2] as int] by {
                        assert(before_set[starts@[k2] as int]);
                    }
                    assert forall|v: usize| before_push.contains(v) implies #[trigger] work@.contains(v) by {
                        let i = choose|i: int| 0 <= i < before_push.len() && before_push[i] == v;
                        assert(work@[i] == v);
                    }
                    assert(work@[work@.len() - 1] == w);
                    assert forall|u2: usize, w2: usize|
                        u2 < n && seen@[u2 as int] && !work@.contains(u2) && u2 != u && #[trigger] edge(g, u2, w2) implies w2 < n && seen@[w2 as int] by {
                        assert(u2 != w);
                        assert(before_set[u2 as int]);
                        assert(!before_push.contains(u2));
                        if w2 != w {
                            assert(before_set[w2 as int]);
                        }
                    }
                }
            }
            k += 1;
        }
        proof {
            lemma_len_subset(marked, set_int_range(0, n as int));
            assert forall|u2: usize, w: usize|
                u2 < n && seen@[u2 as int] && !work@.contains(u2) && #[trigger] edge(g, u2, w) implies w < n && seen@[w as int] by {
                if u2 == u {
                    let kk = choose|kk: int| 0 <= kk < g[u as int].len() && g[u as int][kk] == w;
                    assert(seen@[succs@[kk] as int]);
                }
            }
        }
    }
    proof {
        assert forall|v: usize| v < g.len() implies (seen@[v as int] <==> reached_from(g, starts@, v)) by {
            if reached_from(g, starts@, v) {
                let jj = choose|jj: int| 0 <= jj < starts@.len() && reaches(g, #[trigger] starts@[jj], v);
                assert(seen@[starts@[jj] as int]);
                lemma_closed_set_holds_reached(g, seen@, starts@[jj], v);
            }
        }
    }
    seen
}

/// Two graphs that agree on a set of nodes closed under their edges, and
/// holding `a`, agree on what `a` reaches, which lies in the set.
pub proof fn lemma_same_reach(g1: Seq<Seq<usize>>, g2: Seq<Seq<usize>>, keep: Set<usize>, a: usize, b: usize)
    requires
        keep.contains(a),
        forall|x: usize| #[trigger] keep.contains(x) ==> x < g1.len() && x < g2.len() && g1[x as int] == g2[x as int],
        forall|x: usize, k: int| keep.contains(x) && 0 <= k < g1[x as int].len() ==> keep.contains(#[trigger] g1[x as int][k]),
    ensures
        reaches(g1, a, b) == reaches(g2, a, b),
        reaches(g1, a, b) ==> keep.contains(b),
{
    if reaches(g1, a, b) {
        let path = choose|path: Seq<usize>| #[trigger] is_path(g1, path) && path[0] == a && path.last() == b;
        lemma_path_kept(g1, g2, keep, path, path.len() - 1);
        assert(is_path(g2, path));
    }
    if reaches(g2, a, b) {
        let path = choose|path: Seq<usize>| #[trigger] is_path(g2, path) && path[0] == a && path.last() == b;
        lemma_path_kept_back(g1, g2, keep, path, path.len() - 1);
        assert(is_path(g1, path));
    }
}

/// The first `i + 1` nodes of a walk in `g1` from the set stay in it and
/// are a walk in `g2`.
proof fn lemma_path_kept(g1: Seq<Seq<usize>>, g2: Seq<Seq<usize>>, keep: Set<usize>, path: Seq<usize>, i: int)
    requires
        is_path(g1, path),
        0 <= i < path.len(),
        keep.contains(path[0]),
        forall|x: usize| #[trigger] keep.contains(x) ==> x < g1.len() && x < g2.len() && g1[x as int] == g2[x as int],
        forall|x: usize, k: int| keep.contains(x) && 0 <= k < g1[x as int].len() ==> keep.contains(#[trigger] g1[x as int][k]),
    ensures
        forall|j: int| 0 <= j <= i ==> keep.contains(#[trigger] path[j]),
        forall|j: int| 0 <= j < i ==> #[trigger] path_step(g2, path, j),
    decreases i,
{
    if i > 0 {
        lemma_path_kept(g1, g2, keep, path, i - 1);
        assert(path_step(g1, path, i - 1));
        let x = path[i - 1];
        assert(keep.contains(x));
        let k = choose|k: int| 0 <= k < g1[x as int].len() && g1[x as int][k] == path[i];
        assert(keep.contains(g1[x as int][k]));
    }
}

/// The first `i + 1` nodes of a walk in `g2` from the set stay in it and
/// are a walk in `g1`.
proof fn lemma_path_kept_back(g1: Seq<Seq<usize>>, g2: Seq<Seq<usize>>, keep: Set<usize>, path: Seq<usize>, i: int)
    requires
        is_path(g2, path),
        0 <= i < path.len(),
        keep.contains(path[0]),
        forall|x: usize| #[trigger] keep.contains(x) ==> x < g1.len() && x < g2.len() && g1[x as int] == g2[x as int],
        forall|x: usize, k: int| keep.contains(x) && 0 <= k < g1[x as int].len() ==> keep.contains(#[trigger] g1[x as int][k]),
    ensures
        forall|j: int| 0 <= j <= i ==> keep.contains(#[trigger] path[j]),
        forall|j: int| 0 <= j < i ==> #[trigger] path_step(g1, path, j),
    decreases i,
{
    if i > 0 {
        lemma_path_kept_back(g1, g2, keep, path, i - 1);
        assert(path_step(g2, path, i - 1));
        let x = path[i - 1];
        assert(keep.contains(x));
        assert(g1[x as int] == g2[x as int]);
        let k = choose|k: int| 0 <= k < g1[x as int].len() && g1[x as int][k] == path[i];
        assert(keep.contains(g1[x as int][k]));
    }
}

} // verus!
