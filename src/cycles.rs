//! Cycles in the module dependency graph, found by depth-first search.
use vstd::prelude::*;

verus! {

/// Every dependency names a node of the graph.
pub open spec fn adjacency_wf(adj: Seq<Vec<usize>>) -> bool {
    forall|i: int, j: int|
        0 <= i < adj.len() && 0 <= j < adj[i]@.len() ==> (#[trigger] adj[i]@[j] as int) < adj.len()
}

/// `b` is among the dependencies of `a`.
pub open spec fn has_edge(adj: Seq<Vec<usize>>, a: usize, b: usize) -> bool {
    (a as int) < adj.len() && adj[a as int]@.contains(b)
}

/// Each node of `p` depends on the next one.
pub open spec fn is_walk(adj: Seq<Vec<usize>>, p: Seq<usize>) -> bool {
    forall|i: int| 0 <= i < p.len() - 1 ==> #[trigger] has_edge(adj, p[i], p[i + 1])
}

/// `c` is a closed walk: at least two nodes, each depending on the next,
/// the last repeating the first.
pub open spec fn is_closed_walk(adj: Seq<Vec<usize>>, c: Seq<usize>) -> bool {
    &&& c.len() >= 2
    &&& c[0] == c[c.len() - 1]
    &&& is_walk(adj, c)
}

/// The graph holds a cycle: some closed walk.
pub open spec fn has_cycle(adj: Seq<Vec<usize>>) -> bool {
    exists|c: Seq<usize>| #[trigger] is_closed_walk(adj, c)
}

/// `c` is a cycle `[m0, m1, ..., mn, m0]`: a closed walk in which no node
/// repeats before the last one closes it.
pub open spec fn is_reported_cycle(adj: Seq<Vec<usize>>, c: Seq<usize>) -> bool {
    &&& is_closed_walk(adj, c)
    &&& forall|i: int, j: int| 0 <= i < j < c.len() - 1 ==> #[trigger] c[i] != #[trigger] c[j]
}

/// The number of nodes not yet visited.
pub open spec fn unvisited(v: Seq<bool>) -> nat
    decreases v.len(),
{
    if v.len() == 0 {
        0
    } else {
        unvisited(v.drop_last()) + if v.last() {
            0nat
        } else {
            1nat
        }
    }
}

proof fn lemma_unvisited_monotone(a: Seq<bool>, b: Seq<bool>)
    requires
        a.len() == b.len(),
        forall|i: int| 0 <= i < a.len() && #[trigger] a[i] ==> b[i],
    ensures
        unvisited(b) <= unvisited(a),
        (exists|i: int| 0 <= i < a.len() && !a[i] && #[trigger] b[i]) ==> unvisited(b) < unvisited(
            a,
        ),
    decreases a.len(),
{
    if a.len() > 0 {
        let a2 = a.drop_last();
        let b2 = b.drop_last();
        assert forall|i: int| 0 <= i < a2.len() && #[trigger] a2[i] implies b2[i] by {
            assert(a[i]);
        }
        lemma_unvisited_monotone(a2, b2);
        if exists|i: int| 0 <= i < a.len() && !a[i] && #[trigger] b[i] {
            let i = choose|i: int| 0 <= i < a.len() && !a[i] && #[trigger] b[i];
            if i < a.len() - 1 {
                assert(!a2[i] && b2[i]);
            }
        }
    }
}

/// Taking a node not yet visited leaves one fewer.
pub proof fn lemma_unvisited_take(v: Seq<bool>, i: int)
    requires
        0 <= i < v.len(),
        !v[i],
    ensures
        unvisited(v.update(i, true)) == unvisited(v) - 1,
    decreases v.len(),
{
    let w = v.update(i, true);
    if i < v.len() - 1 {
        assert(w.drop_last() =~= v.drop_last().update(i, true));
        lemma_unvisited_take(v.drop_last(), i);
    } else {
        assert(w.drop_last() =~= v.drop_last());
    }
}

/// Where every node is visited, none is left.
pub proof fn lemma_unvisited_none(v: Seq<bool>)
    requires
        forall|i: int| 0 <= i < v.len() ==> #[trigger] v[i],
    ensures
        unvisited(v) == 0,
    decreases v.len(),
{
    if v.len() > 0 {
        let d = v.drop_last();
        assert forall|i: int| 0 <= i < d.len() implies #[trigger] d[i] by {
            assert(v[i]);
        }
        lemma_unvisited_none(d);
        assert(v[v.len() - 1]);
    }
}

/// The search state: `on_stack` maps exactly the nodes of the current path
/// to their positions on it, a node on the path has been visited, and the
/// path is a walk.
pub open spec fn search_state_wf(
    adj: Seq<Vec<usize>>,
    visited: Seq<bool>,
    on_stack: Seq<Option<usize>>,
    path: Seq<usize>,
) -> bool {
    &&& visited.len() == adj.len()
    &&& on_stack.len() == adj.len()
    &&& forall|v: int|
        0 <= v < on_stack.len() && (#[trigger] on_stack[v]) is Some ==> on_stack[v]->0 < path.len()
            && path[on_stack[v]->0 as int] as int == v && visited[v]
    &&& forall|k: int| 0 <= k < path.len() ==> (#[trigger] path[k] as int) < adj.len() && on_stack[path[k] as int] == Some(k as usize)
    &&& is_walk(adj, path)
}

/// Every cycle found so far is a cycle.
pub open spec fn all_reported(adj: Seq<Vec<usize>>, cycles: Seq<Vec<usize>>) -> bool {
    forall|k: int| 0 <= k < cycles.len() ==> is_reported_cycle(adj, #[trigger] cycles[k]@)
}

/// Node `w` is finished: visited and no longer on the path.
pub open spec fn finished(visited: Seq<bool>, on_stack: Seq<Option<usize>>, w: int) -> bool {
    visited[w] && on_stack[w] is None
}

/// The finishing order: each finished node has a finishing time below
/// `clock`, and while no cycle has been reported, every dependency of a
/// finished node is finished earlier.
pub open spec fn finish_order(
    adj: Seq<Vec<usize>>,
    visited: Seq<bool>,
    on_stack: Seq<Option<usize>>,
    fin: Seq<int>,
    clock: int,
    no_cycle: bool,
) -> bool {
    &&& fin.len() == adj.len()
    &&& forall|w: int| 0 <= w < adj.len() && #[trigger] finished(visited, on_stack, w) ==> 0 <= fin[w] < clock
    &&& no_cycle ==> forall|w: int, j: int|
        0 <= w < adj.len() && finished(visited, on_stack, w) && 0 <= j < adj[w]@.len() ==> finished(
            visited,
            on_stack,
            #[trigger] adj[w]@[j] as int,
        ) && fin[adj[w]@[j] as int] < fin[w]
}

fn dfs_find_module_cycles(
    u: usize,
    adj: &Vec<Vec<usize>>,
    visited: &mut Vec<bool>,
    on_stack: &mut Vec<Option<usize>>,
    path: &mut Vec<usize>,
    cycles: &mut Vec<Vec<usize>>,
    Ghost(fin): Ghost<Seq<int>>,
    Ghost(clock): Ghost<int>,
) -> (res: Ghost<(Seq<int>, int)>)
    requires
        adjacency_wf(adj@),
        (u as int) < adj@.len(),
        !old(visited)@[u as int],
        search_state_wf(adj@, old(visited)@, old(on_stack)@, old(path)@),
        old(path)@.len() > 0 ==> has_edge(adj@, old(path)@.last(), u),
        all_reported(adj@, old(cycles)@),
        finish_order(adj@, old(visited)@, old(on_stack)@, fin, clock, old(cycles)@.len() == 0),
        clock >= 0,
    ensures
        final(visited)@.len() == old(visited)@.len(),
        forall|i: int| 0 <= i < old(visited)@.len() && #[trigger] old(visited)@[i] ==> final(visited)@[i],
        final(visited)@[u as int],
        final(on_stack)@ == old(on_stack)@,
        final(path)@ == old(path)@,
        all_reported(adj@, final(cycles)@),
        old(cycles)@.len() <= final(cycles)@.len(),
        final(cycles)@.subrange(0, old(cycles)@.len() as int) == old(cycles)@,
        res@.1 >= clock,
        finish_order(adj@, final(visited)@, final(on_stack)@, res@.0, res@.1, final(cycles)@.len() == 0),
        forall|w: int| 0 <= w < adj@.len() && finished(old(visited)@, old(on_stack)@, w) ==> #[trigger] res@.0[w] == fin[w],
    decreases unvisited(old(visited)@),
{
    let ghost v0 = visited@;
    let ghost s0 = on_stack@;
    let ghost path0 = path@;
    let ghost c0 = cycles@;
    visited.set(u, true);
    proof {
        assert(!v0[u as int] && visited@[u as int]);
        lemma_unvisited_monotone(v0, visited@);
        assert(s0[u as int] is None);
    }
    let pos = path.len();
    on_stack.set(u, Some(pos));
    path.push(u);
    proof {
        assert(is_walk(adj@, path@)) by {
            assert forall|i: int| 0 <= i < path@.len() - 1 implies #[trigger] has_edge(
                adj@,
                path@[i],
                path@[i + 1],
            ) by {
                if i < path0.len() - 1 {
                    assert(has_edge(adj@, path0[i], path0[i + 1]));
                }
            }
        }
        assert forall|k: int| 0 <= k < path@.len() implies (#[trigger] path@[k] as int) < adj@.len() && on_stack@[path@[k] as int] == Some(k as usize) by {
            if k < path0.len() {
                assert(path@[k] == path0[k]);
                assert(path0[k] != u) by {
                    assert(s0[path0[k] as int] == Some(k as usize));
                }
            }
        }
        assert(search_state_wf(adj@, visited@, on_stack@, path@));
    }
    let ghost v1 = visited@;
    let ghost s1 = on_stack@;
    let ghost path1 = path@;
    let ghost mut f = fin;
    let ghost mut ck = clock;
    proof {
        assert forall|w: int| 0 <= w < adj@.len() && finished(v1, s1, w) implies finished(v0, s0, w) by {
            assert(w != u);
        }
    }
    let n = adj[u].len();
    let mut j: usize = 0;
    while j < n
        invariant
            adjacency_wf(adj@),
            (u as int) < adj@.len(),
            n == adj@[u as int]@.len(),
            0 <= j <= n,
            visited@.len() == v0.len(),
            v0 == old(visited)@,
            !v0[u as int],
            s0.len() == adj@.len(),
            c0 == old(cycles)@,
            forall|i: int| 0 <= i < v0.len() && #[trigger] v1[i] ==> visited@[i],
            v1 == v0.update(u as int, true),
            unvisited(v1) < unvisited(v0),
            on_stack@ == s1,
            path@ == path1,
            path1 == path0.push(u),
            s1 == s0.update(u as int, Some(pos)),
            pos == path0.len(),
            search_state_wf(adj@, visited@, on_stack@, path@),
            all_reported(adj@, cycles@),
            c0.len() <= cycles@.len(),
            cycles@.subrange(0, c0.len() as int) == c0,
            ck >= clock,
            clock >= 0,
            finish_order(adj@, visited@, on_stack@, f, ck, cycles@.len() == 0),
            forall|w: int| 0 <= w < adj@.len() && finished(v0, s0, w) ==> #[trigger] f[w] == fin[w],
            cycles@.len() == 0 ==> forall|q: int| 0 <= q < j ==> finished(visited@, on_stack@, #[trigger] adj@[u as int]@[q] as int),
        decreases n - j,
    {
        let v = adj[u][j];
        assert(adj@[u as int]@.contains(v)) by {
            assert(adj@[u as int]@[j as int] == v);
        }
        match on_stack[v] {
            Some(start) => {
                let mut cycle: Vec<usize> = Vec::new();
                let mut k: usize = start;
                while k < path.len()
                    invariant
                        start <= k <= path@.len(),
                        start < path@.len(),
                        cycle@ == path@.subrange(start as int, k as int),
                    decreases path@.len() - k,
                {
                    cycle.push(path[k]);
                    proof {
                        assert(cycle@ =~= path@.subrange(start as int, k as int + 1));
                    }
                    k = k + 1;
                }
                cycle.push(v);
                assert(is_reported_cycle(adj@, cycle@)) by {
                    let c = cycle@;
                    assert(c.len() == path@.len() - start + 1);
                    assert forall|i: int| 0 <= i < c.len() - 1 implies #[trigger] has_edge(
                        adj@,
                        c[i],
                        c[i + 1],
                    ) by {
                        if i < c.len() - 2 {
                            assert(c[i] == path@[start + i]);
                            assert(c[i + 1] == path@[start + i + 1]);
                            assert(has_edge(adj@, path@[start + i], path@[start + i + 1]));
                        } else {
                            assert(c[i] == path@.last());
                        }
                    }
                    assert forall|a: int, b: int| 0 <= a < b < c.len() - 1 implies #[trigger] c[a] != #[trigger] c[b] by {
                        assert(c[a] == path@[start + a]);
                        assert(c[b] == path@[start + b]);
                        assert(on_stack@[path@[start + a] as int] == Some((start + a) as usize));
                        assert(on_stack@[path@[start + b] as int] == Some((start + b) as usize));
                    }
                }
                let ghost cb = cycles@;
                cycles.push(cycle);
                assert(all_reported(adj@, cycles@)) by {
                    assert forall|k: int| 0 <= k < cycles@.len() implies is_reported_cycle(
                        adj@,
                        #[trigger] cycles@[k]@,
                    ) by {
                        if k < cycles@.len() - 1 {
                            assert(cycles@[k] == cb[k]);
                        }
                    }
                }
                assert(cycles@.subrange(0, c0.len() as int) =~= cb.subrange(0, c0.len() as int));
            },
            None => {
                if !visited[v] {
                    proof {
                        lemma_unvisited_monotone(v1, visited@);
                    }
                    let ghost vb = visited@;
                    let ghost sb = on_stack@;
                    let ghost cb = cycles@;
                    let ghost fb = f;
                    let r = dfs_find_module_cycles(v, adj, visited, on_stack, path, cycles, Ghost(f), Ghost(ck));
                    proof {
                        f = r@.0;
                        ck = r@.1;
                        assert(cycles@.subrange(0, c0.len() as int) =~= cycles@.subrange(0, cb.len() as int).subrange(0, c0.len() as int));
                        assert forall|w: int| 0 <= w < adj@.len() && finished(v0, s0, w) implies #[trigger] f[w] == fin[w] by {
                            assert(w != u);
                            assert(v1[w]);
                            assert(sb == s1);
                            assert(s0.len() == adj@.len());
                            assert(s1[w] == s0[w]);
                            assert(finished(vb, sb, w));
                            assert(fb[w] == fin[w]);
                        }
                        if cycles@.len() == 0 {
                            assert forall|q: int| 0 <= q < j + 1 implies finished(visited@, on_stack@, #[trigger] adj@[u as int]@[q] as int) by {
                                if q < j {
                                    assert(finished(vb, sb, adj@[u as int]@[q] as int));
                                }
                            }
                        }
                    }
                } else {
                    proof {
                        if cycles@.len() == 0 {
                            assert(finished(visited@, on_stack@, adj@[u as int]@[j as int] as int));
                        }
                    }
                }
            },
        }
        j = j + 1;
    }
    assert forall|i: int| 0 <= i < v0.len() && #[trigger] v0[i] implies visited@[i] by {
        assert(v1[i]);
    }
    let ghost sl = on_stack@;
    let ghost vl = visited@;
    let ghost fl = f;
    let ghost cl = ck;
    on_stack.set(u, None);
    path.pop();
    assert(path@ =~= path0);
    assert(on_stack@ =~= s0);
    proof {
        f = fl.update(u as int, cl);
        ck = cl + 1;
        assert forall|w: int| 0 <= w < adj@.len() && #[trigger] finished(visited@, on_stack@, w) implies 0 <= f[w] < ck by {
            if w != u {
                assert(finished(vl, sl, w));
            }
        }
        if cycles@.len() == 0 {
            assert forall|w: int, q: int|
                0 <= w < adj@.len() && finished(visited@, on_stack@, w) && 0 <= q < adj@[w]@.len() implies finished(
                    visited@,
                    on_stack@,
                    #[trigger] adj@[w]@[q] as int,
                ) && f[adj@[w]@[q] as int] < f[w] by {
                let x = adj@[w]@[q] as int;
                if w == u {
                    assert(finished(vl, sl, x));
                    assert(x != u);
                } else {
                    assert(finished(vl, sl, w));
                    assert(finished(vl, sl, x));
                    if x == u {
                        assert(sl[u as int] is Some);
                    }
                }
            }
        }
        assert forall|w: int| 0 <= w < adj@.len() && finished(v0, s0, w) implies #[trigger] f[w] == fin[w] by {
            assert(w != u);
        }
    }
    Ghost((f, ck))
}

proof fn lemma_no_closed_walk(adj: Seq<Vec<usize>>, fin: Seq<int>, c: Seq<usize>)
    requires
        adjacency_wf(adj),
        fin.len() == adj.len(),
        forall|w: int, j: int|
            0 <= w < adj.len() && 0 <= j < adj[w]@.len() ==> fin[#[trigger] adj[w]@[j] as int] < fin[w],
    ensures
        !is_closed_walk(adj, c),
{
    if is_closed_walk(adj, c) {
        lemma_walk_decreases(adj, fin, c, c.len() - 1);
    }
}

proof fn lemma_walk_decreases(adj: Seq<Vec<usize>>, fin: Seq<int>, c: Seq<usize>, k: int)
    requires
        adjacency_wf(adj),
        fin.len() == adj.len(),
        forall|w: int, j: int|
            0 <= w < adj.len() && 0 <= j < adj[w]@.len() ==> fin[#[trigger] adj[w]@[j] as int] < fin[w],
        is_walk(adj, c),
        1 <= k < c.len(),
    ensures
        fin[c[k] as int] < fin[c[0] as int],
    decreases k,
{
    let i = k - 1;
    assert(has_edge(adj, c[i], c[i + 1]));
    let a = c[i] as int;
    let q = choose|q: int| 0 <= q < adj[a]@.len() && adj[a]@[q] == c[k];
    assert(fin[adj[a]@[q] as int] < fin[a]);
    if k > 1 {
        lemma_walk_decreases(adj, fin, c, k - 1);
    }
}

/// All cycles of the dependency graph `adj` (node `i` depends on each node
/// of `adj[i]`) that a depth-first search meets, one per back edge. Each is
/// a cycle whose last node repeats the first; none is reported exactly when
/// the graph has no cycle.
pub fn find_cycles(adj: &Vec<Vec<usize>>) -> (cycles: Vec<Vec<usize>>)
    requires
        adjacency_wf(adj@),
    ensures
        all_reported(adj@, cycles@),
        cycles@.len() == 0 <==> !has_cycle(adj@),
{
    let n = adj.len();
    let mut visited: Vec<bool> = Vec::new();
    let mut on_stack: Vec<Option<usize>> = Vec::new();
    let mut i: usize = 0;
    while i < n
        invariant
            n == adj@.len(),
            0 <= i <= n,
            visited@.len() == i,
            on_stack@.len() == i,
            forall|k: int| 0 <= k < i ==> !(#[trigger] visited@[k]),
            forall|k: int| 0 <= k < i ==> (#[trigger] on_stack@[k]) is None,
        decreases n - i,
    {
        visited.push(false);
        on_stack.push(None);
        i = i + 1;
    }
    let mut path: Vec<usize> = Vec::new();
    let mut cycles: Vec<Vec<usize>> = Vec::new();
    let ghost mut fin: Seq<int> = Seq::new(n as nat, |k: int| 0int);
    let ghost mut clock: int = 0;
    let mut u: usize = 0;
    while u < n
        invariant
            n == adj@.len(),
            adjacency_wf(adj@),
            0 <= u <= n,
            path@.len() == 0,
            visited@.len() == n,
            on_stack@.len() == n,
            forall|k: int| 0 <= k < n ==> (#[trigger] on_stack@[k]) is None,
            forall|k: int| 0 <= k < u ==> #[trigger] visited@[k],
            search_state_wf(adj@, visited@, on_stack@, path@),
            all_reported(adj@, cycles@),
            clock >= 0,
            finish_order(adj@, visited@, on_stack@, fin, clock, cycles@.len() == 0),
        decreases n - u,
    {
        let ghost vb = visited@;
        if !visited[u] {
            let r = dfs_find_module_cycles(u, adj, &mut visited, &mut on_stack, &mut path, &mut cycles, Ghost(fin), Ghost(clock));
            proof {
                fin = r@.0;
                clock = r@.1;
            }
        }
        proof {
            assert forall|k: int| 0 <= k < u + 1 implies #[trigger] visited@[k] by {
                if k < u {
                    assert(vb[k]);
                }
            }
        }
        u = u + 1;
    }
    proof {
        if cycles@.len() == 0 {
            if has_cycle(adj@) {
                let c = choose|c: Seq<usize>| #[trigger] is_closed_walk(adj@, c);
                assert forall|w: int, j: int|
                    0 <= w < adj@.len() && 0 <= j < adj@[w]@.len() implies fin[#[trigger] adj@[w]@[j] as int] < fin[w] by {
                    assert(finished(visited@, on_stack@, w));
                }
                lemma_no_closed_walk(adj@, fin, c);
            }
        } else {
            assert(is_reported_cycle(adj@, cycles@[0]@));
            assert(is_closed_walk(adj@, cycles@[0]@));
        }
    }
    cycles
}

} // verus!
