//! Module-level rollup of the chunk-level edges.
use crate::chunk::{Chunk, Edge, Module, ProjectType};
use crate::cycles::{lemma_unvisited_none, lemma_unvisited_take, unvisited, adjacency_wf, find_cycles, has_cycle, has_edge, is_closed_walk, is_reported_cycle, is_walk};
use crate::query::opt_text;
use crate::text::{chars_of, has_prefix, starts_with, string_of, text_eq};
use vstd::prelude::*;

verus! {

/// `f(0) + ... + f(n - 1)`.
pub open spec fn sum_to(n: int, f: spec_fn(int) -> int) -> int
    decreases n,
{
    if n <= 0 {
        0
    } else {
        sum_to(n - 1, f) + f(n - 1)
    }
}

proof fn lemma_sum_to_bounds(n: int, f: spec_fn(int) -> int, m: int)
    requires
        forall|i: int| 0 <= i < n ==> 0 <= #[trigger] f(i) <= m,
        0 <= m,
    ensures
        0 <= sum_to(n, f) <= if n > 0 {
            n * m
        } else {
            0
        },
    decreases n,
{
    if n > 0 {
        lemma_sum_to_bounds(n - 1, f, m);
        assert((n - 1) * m + m == n * m) by (nonlinear_arith);
        if n - 1 > 0 {
        } else {
            assert(n == 1);
        }
    }
}

/// The target `t` names the symbol `s`: it is `s`, or starts with `s::`.
pub open spec fn names_symbol(t: Seq<char>, s: Option<Seq<char>>) -> bool {
    match s {
        Some(x) => t == x || starts_with(t, x + "::"@),
        None => false,
    }
}

/// The module of the chunk whose hash is the edge's source, the first such chunk.
pub open spec fn source_module_from(chunks: Seq<Chunk>, e: Edge, i: int) -> Option<Seq<char>>
    decreases chunks.len() - i,
{
    if i < 0 || i >= chunks.len() {
        None
    } else if chunks[i].content_hash@ == e.source_hash@ {
        opt_text(chunks[i].module_id)
    } else {
        source_module_from(chunks, e, i + 1)
    }
}

/// The module of the source chunk of `e`.
pub open spec fn source_module(chunks: Seq<Chunk>, e: Edge) -> Option<Seq<char>> {
    source_module_from(chunks, e, 0)
}

/// Some module has identifier `id`.
pub open spec fn module_exists(modules: Seq<Module>, id: Seq<char>) -> bool {
    exists|k: int| 0 <= k < modules.len() && (#[trigger] modules[k]).id@ == id
}

/// Edge `e` from module `m` reaches chunk `c` of another, existing module `t`.
pub open spec fn module_pair(
    modules: Seq<Module>,
    chunks: Seq<Chunk>,
    e: Edge,
    c: Chunk,
    m: Seq<char>,
    t: Seq<char>,
) -> bool {
    &&& source_module(chunks, e) == Some(m)
    &&& opt_text(c.module_id) == Some(t)
    &&& names_symbol(e.target_query@, opt_text(c.symbol_name))
    &&& t != m
    &&& module_exists(modules, t)
}

/// The number of (edge, chunk) pairs by which module `m` depends on module `t`.
pub open spec fn module_edge_count(
    modules: Seq<Module>,
    chunks: Seq<Chunk>,
    edges: Seq<Edge>,
    m: Seq<char>,
    t: Seq<char>,
) -> int {
    sum_to(
        edges.len() as int,
        |i: int|
            sum_to(
                chunks.len() as int,
                |j: int|
                    if module_pair(modules, chunks, edges[i], chunks[j], m, t) {
                        1int
                    } else {
                        0int
                    },
            ),
    )
}

/// Whether an optional text is `s`.
pub fn option_text_eq(o: &Option<String>, s: &str) -> (r: bool)
    ensures
        r == (opt_text(*o) == Some(s@)),
{
    match o {
        Some(x) => text_eq(x.as_str(), s),
        None => false,
    }
}

fn source_module_of(chunks: &Vec<Chunk>, e: &Edge) -> (r: Option<String>)
    ensures
        opt_text(r) == source_module(chunks@, *e),
{
    let mut i: usize = 0;
    while i < chunks.len()
        invariant
            0 <= i <= chunks@.len(),
            source_module_from(chunks@, *e, 0) == source_module_from(chunks@, *e, i as int),
        decreases chunks@.len() - i,
    {
        if chunks[i].content_hash == e.source_hash {
            return match &chunks[i].module_id {
                Some(x) => Some(x.clone()),
                None => None,
            };
        }
        i = i + 1;
    }
    None
}

fn target_names_symbol(t: &str, s: &Option<String>) -> (r: bool)
    ensures
        r == names_symbol(t@, opt_text(*s)),
{
    match s {
        Some(x) => {
            if text_eq(t, x.as_str()) {
                return true;
            }
            let mut p = chars_of(x.as_str());
            p.push(':');
            p.push(':');
            proof {
                reveal_strlit("::");
                assert(p@ =~= x@ + "::"@);
            }
            has_prefix(&chars_of(t), &p)
        },
        None => false,
    }
}

fn module_exists_exec(modules: &Vec<Module>, id: &str) -> (r: bool)
    ensures
        r == module_exists(modules@, id@),
{
    let mut k: usize = 0;
    while k < modules.len()
        invariant
            0 <= k <= modules@.len(),
            forall|j: int| 0 <= j < k ==> (#[trigger] modules@[j]).id@ != id@,
        decreases modules@.len() - k,
    {
        if text_eq(modules[k].id.as_str(), id) {
            return true;
        }
        k = k + 1;
    }
    false
}

/// The number of (edge, chunk) pairs by which module `m` depends on module
/// `t`: the edge leaves a chunk of `m`, and its target is the symbol name of
/// a chunk of `t`, or starts with that name and `::`; `t` is another module
/// that exists.
pub fn count_module_edges(
    modules: &Vec<Module>,
    chunks: &Vec<Chunk>,
    edges: &Vec<Edge>,
    m: &str,
    t: &str,
) -> (r: usize)
    requires
        edges@.len() * chunks@.len() <= usize::MAX,
    ensures
        r == module_edge_count(modules@, chunks@, edges@, m@, t@),
{
    let ghost inner = |i: int|
        sum_to(
            chunks@.len() as int,
            |j: int|
                if module_pair(modules@, chunks@, edges@[i], chunks@[j], m@, t@) {
                    1int
                } else {
                    0int
                },
        );
    if text_eq(t, m) || !module_exists_exec(modules, t) {
        proof {
            assert forall|i: int| 0 <= i < edges@.len() implies #[trigger] inner(i) == 0 by {
                let f = |j: int|
                    if module_pair(modules@, chunks@, edges@[i], chunks@[j], m@, t@) {
                        1int
                    } else {
                        0int
                    };
                lemma_sum_to_bounds(chunks@.len() as int, f, 0);
            }
            lemma_sum_to_bounds(edges@.len() as int, inner, 0);
        }
        return 0;
    }
    let mut total: usize = 0;
    let mut i: usize = 0;
    while i < edges.len()
        invariant
            0 <= i <= edges@.len(),
            edges@.len() * chunks@.len() <= usize::MAX,
            t@ != m@,
            module_exists(modules@, t@),
            total == sum_to(i as int, inner),
            total <= i * chunks@.len(),
            inner == (|i: int|
                sum_to(
                    chunks@.len() as int,
                    |j: int|
                        if module_pair(modules@, chunks@, edges@[i], chunks@[j], m@, t@) {
                            1int
                        } else {
                            0int
                        },
                )),
        decreases edges@.len() - i,
    {
        let e = &edges[i];
        let src = source_module_of(chunks, e);
        let from_m = option_text_eq(&src, m);
        let ghost f = |j: int|
            if module_pair(modules@, chunks@, edges@[i as int], chunks@[j], m@, t@) {
                1int
            } else {
                0int
            };
        let mut count: usize = 0;
        let mut j: usize = 0;
        while j < chunks.len()
            invariant
                0 <= j <= chunks@.len(),
                e == &edges@[i as int],
                t@ != m@,
                module_exists(modules@, t@),
                from_m == (source_module(chunks@, *e) == Some(m@)),
                count == sum_to(j as int, f),
                count <= j,
                f == (|j: int|
                    if module_pair(modules@, chunks@, edges@[i as int], chunks@[j], m@, t@) {
                        1int
                    } else {
                        0int
                    }),
            decreases chunks@.len() - j,
        {
            let c = &chunks[j];
            if from_m && option_text_eq(&c.module_id, t) && target_names_symbol(
                e.target_query.as_str(),
                &c.symbol_name,
            ) {
                count = count + 1;
            }
            j = j + 1;
        }
        assert(inner(i as int) == sum_to(chunks@.len() as int, f));
        assert((i + 1) * chunks@.len() <= edges@.len() * chunks@.len()) by (nonlinear_arith)
            requires
                i < edges@.len(),
        ;
        assert(i * chunks@.len() + chunks@.len() == (i + 1) * chunks@.len()) by (nonlinear_arith);
        total = total + count;
        i = i + 1;
    }
    total
}

/// The dependencies of module `m`: for each module, in order, that `m`
/// depends on by at least one pair, its identifier and the number of pairs.
pub open spec fn module_deps_prefix(
    modules: Seq<Module>,
    chunks: Seq<Chunk>,
    edges: Seq<Edge>,
    m: Seq<char>,
    k: int,
) -> Seq<(Seq<char>, int)>
    decreases k,
{
    if k <= 0 {
        Seq::empty()
    } else {
        let rest = module_deps_prefix(modules, chunks, edges, m, k - 1);
        let t = modules[k - 1].id@;
        let c = module_edge_count(modules, chunks, edges, m, t);
        if c > 0 {
            rest.push((t, c))
        } else {
            rest
        }
    }
}

/// The view of a dependency list.
pub open spec fn deps_view(d: Seq<(String, usize)>) -> Seq<(Seq<char>, int)> {
    Seq::new(d.len(), |i: int| (d[i].0@, d[i].1 as int))
}

/// The module-level dependencies of module `m`, in the order of `modules`:
/// each other module that `m` reaches by edges, with the number of (edge,
/// chunk) pairs.
pub fn module_dependencies(
    modules: &Vec<Module>,
    chunks: &Vec<Chunk>,
    edges: &Vec<Edge>,
    m: &str,
) -> (r: Vec<(String, usize)>)
    requires
        edges@.len() * chunks@.len() <= usize::MAX,
    ensures
        deps_view(r@) == module_deps_prefix(modules@, chunks@, edges@, m@, modules@.len() as int),
{
    let mut out: Vec<(String, usize)> = Vec::new();
    let mut k: usize = 0;
    while k < modules.len()
        invariant
            0 <= k <= modules@.len(),
            edges@.len() * chunks@.len() <= usize::MAX,
            deps_view(out@) == module_deps_prefix(modules@, chunks@, edges@, m@, k as int),
        decreases modules@.len() - k,
    {
        let c = count_module_edges(modules, chunks, edges, m, modules[k].id.as_str());
        if c > 0 {
            let ghost before = out@;
            out.push((modules[k].id.clone(), c));
            assert(deps_view(out@) =~= deps_view(before).push((modules@[k as int].id@, c as int)));
        }
        k = k + 1;
    }
    out
}

/// Position `a` of `base` comes before position `b`: more dependencies
/// first, and on equal counts the earlier position.
pub open spec fn count_before(base: Seq<(Seq<char>, int)>, a: int, b: int) -> bool {
    base[a].1 > base[b].1 || (base[a].1 == base[b].1 && a < b)
}

/// `ord` lists distinct positions of `base`, in count order, and `out`
/// holds the entries at those positions.
pub open spec fn is_count_order(ord: Seq<int>, out: Seq<(Seq<char>, int)>, base: Seq<(Seq<char>, int)>) -> bool {
    &&& ord.len() == out.len()
    &&& forall|i: int| 0 <= i < ord.len() ==> 0 <= #[trigger] ord[i] < base.len() && out[i] == base[ord[i]]
    &&& forall|i: int, j: int| 0 <= i < j < ord.len() ==> #[trigger] ord[i] != #[trigger] ord[j]
    &&& forall|i: int, j: int| 0 <= i < j < ord.len() ==> count_before(base, #[trigger] ord[i], #[trigger] ord[j])
}

/// `out` is `base` ordered by count, highest first, equal counts keeping
/// the order of `base`.
pub open spec fn ordered_by_count(out: Seq<(Seq<char>, int)>, base: Seq<(Seq<char>, int)>) -> bool {
    &&& out.len() == base.len()
    &&& exists|ord: Seq<int>| #[trigger] is_count_order(ord, out, base)
}

/// Order dependencies by count, highest first; equal counts keep their order.
pub fn order_by_count(deps: &Vec<(String, usize)>) -> (r: Vec<(String, usize)>)
    ensures
        ordered_by_count(deps_view(r@), deps_view(deps@)),
{
    let ghost base = deps_view(deps@);
    let n = deps.len();
    let mut taken: Vec<bool> = Vec::new();
    let mut t: usize = 0;
    while t < n
        invariant
            0 <= t <= n,
            taken@.len() == t,
            forall|k: int| 0 <= k < t ==> !(#[trigger] taken@[k]),
            unvisited(taken@) == t,
        decreases n - t,
    {
        let ghost before = taken@;
        taken.push(false);
        assert(taken@.drop_last() =~= before);
        t = t + 1;
    }
    let mut out: Vec<(String, usize)> = Vec::new();
    let ghost mut ord: Seq<int> = Seq::empty();
    while out.len() < n
        invariant
            n == deps@.len(),
            base == deps_view(deps@),
            taken@.len() == n,
            unvisited(taken@) == n - out@.len(),
            out@.len() <= n,
            is_count_order(ord, deps_view(out@), base),
            forall|k: int| 0 <= k < ord.len() ==> taken@[#[trigger] ord[k]],
            forall|k: int, x: int|
                0 <= k < ord.len() && 0 <= x < n && !taken@[x] ==> #[trigger] count_before(base, ord[k], x),
        decreases n - out@.len(),
    {
        let mut best: Option<usize> = None;
        let mut i: usize = 0;
        while i < n
            invariant
                n == deps@.len(),
                base == deps_view(deps@),
                taken@.len() == n,
                0 <= i <= n,
                best matches Some(b) ==> b < i && !taken@[b as int],
                best matches Some(b) ==> forall|j: int|
                    0 <= j < i && !taken@[j] && j != b ==> count_before(base, b as int, j),
                best is None ==> forall|j: int| 0 <= j < i ==> #[trigger] taken@[j],
            decreases n - i,
        {
            if !taken[i] {
                match best {
                    None => {
                        best = Some(i);
                    },
                    Some(b) => {
                        if deps[i].1 > deps[b].1 {
                            best = Some(i);
                        }
                    },
                }
            }
            i = i + 1;
        }
        proof {
            if best is None {
                lemma_unvisited_none(taken@);
            }
        }
        let b = best.unwrap();
        let ghost old_taken = taken@;
        let ghost old_ord = ord;
        let ghost old_out = deps_view(out@);
        proof {
            lemma_unvisited_take(taken@, b as int);
        }
        out.push((deps[b].0.clone(), deps[b].1));
        taken.set(b, true);
        proof {
            ord = ord.push(b as int);
            let ov = deps_view(out@);
            assert(ov =~= old_out.push(base[b as int]));
            assert forall|x: int, y: int| 0 <= x < y < ord.len() implies #[trigger] ord[x] != #[trigger] ord[y] by {
                if y == ord.len() - 1 {
                    assert(old_taken[old_ord[x]]);
                } else {
                    assert(ord[x] == old_ord[x] && ord[y] == old_ord[y]);
                }
            }
            assert forall|x: int, y: int| 0 <= x < y < ord.len() implies count_before(base, #[trigger] ord[x], #[trigger] ord[y]) by {
                if y == ord.len() - 1 {
                    assert(ord[x] == old_ord[x]);
                } else {
                    assert(ord[x] == old_ord[x] && ord[y] == old_ord[y]);
                }
            }
            assert forall|k: int| 0 <= k < ord.len() implies 0 <= #[trigger] ord[k] < base.len() && ov[k] == base[ord[k]] by {
                if k < ord.len() - 1 {
                    assert(ord[k] == old_ord[k]);
                }
            }
            assert forall|k: int| 0 <= k < ord.len() implies taken@[#[trigger] ord[k]] by {
                if k < ord.len() - 1 {
                    assert(ord[k] == old_ord[k]);
                    assert(old_taken[old_ord[k]]);
                }
            }
            assert forall|k: int, x: int|
                0 <= k < ord.len() && 0 <= x < n && !taken@[x] implies #[trigger] count_before(base, ord[k], x) by {
                assert(!old_taken[x]);
                if k < ord.len() - 1 {
                    assert(ord[k] == old_ord[k]);
                }
            }
            assert(is_count_order(ord, ov, base));
        }
    }
    proof {
        assert(is_count_order(ord, deps_view(out@), base));
    }
    out
}

/// Module `a` depends on module `b`.
pub open spec fn depends_on(
    modules: Seq<Module>,
    chunks: Seq<Chunk>,
    edges: Seq<Edge>,
    a: int,
    b: int,
) -> bool {
    module_edge_count(modules, chunks, edges, modules[a].id@, modules[b].id@) > 0
}

/// The module dependency graph by position: `adj[a]` lists each `b` that
/// module `a` depends on.
pub fn module_adjacency(modules: &Vec<Module>, chunks: &Vec<Chunk>, edges: &Vec<Edge>) -> (adj: Vec<
    Vec<usize>,
>)
    requires
        edges@.len() * chunks@.len() <= usize::MAX,
    ensures
        adj@.len() == modules@.len(),
        adjacency_wf(adj@),
        forall|a: usize, b: usize|
            (a as int) < modules@.len() && (b as int) < modules@.len() ==> (#[trigger] has_edge(
                adj@,
                a,
                b,
            ) <==> depends_on(modules@, chunks@, edges@, a as int, b as int)),
{
    let n = modules.len();
    let mut adj: Vec<Vec<usize>> = Vec::new();
    let mut a: usize = 0;
    while a < n
        invariant
            n == modules@.len(),
            edges@.len() * chunks@.len() <= usize::MAX,
            0 <= a <= n,
            adj@.len() == a,
            forall|x: int, j: int|
                0 <= x < a && 0 <= j < adj@[x]@.len() ==> (#[trigger] adj@[x]@[j] as int) < n,
            forall|x: int, b: int|
                0 <= x < a && 0 <= b < n ==> (adj@[x]@.contains(b as usize) <==> depends_on(
                    modules@,
                    chunks@,
                    edges@,
                    x,
                    b,
                )),
        decreases n - a,
    {
        let mut row: Vec<usize> = Vec::new();
        let mut b: usize = 0;
        while b < n
            invariant
                n == modules@.len(),
                edges@.len() * chunks@.len() <= usize::MAX,
                0 <= a < n,
                0 <= b <= n,
                forall|j: int| 0 <= j < row@.len() ==> (#[trigger] row@[j] as int) < b,
                forall|y: int|
                    0 <= y < n ==> (row@.contains(y as usize) <==> (y < b && depends_on(
                        modules@,
                        chunks@,
                        edges@,
                        a as int,
                        y,
                    ))),
            decreases n - b,
        {
            let c = count_module_edges(
                modules,
                chunks,
                edges,
                modules[a].id.as_str(),
                modules[b].id.as_str(),
            );
            let ghost before = row@;
            if c > 0 {
                row.push(b);
                proof {
                    assert forall|y: int| 0 <= y < n implies (row@.contains(y as usize) <==> (y < b
                        + 1 && depends_on(modules@, chunks@, edges@, a as int, y))) by {
                        if y == b {
                            assert(row@[row@.len() - 1] == b);
                        }
                        if row@.contains(y as usize) && y != b {
                            let q = choose|q: int| 0 <= q < row@.len() && row@[q] == y as usize;
                            assert(before[q] == y as usize);
                        }
                        if y < b && depends_on(modules@, chunks@, edges@, a as int, y) {
                            let q = choose|q: int| 0 <= q < before.len() && before[q] == y as usize;
                            assert(row@[q] == y as usize);
                        }
                    }
                }
            } else {
                proof {
                    assert forall|y: int| 0 <= y < n implies (row@.contains(y as usize) <==> (y < b
                        + 1 && depends_on(modules@, chunks@, edges@, a as int, y))) by {
                        if row@.contains(y as usize) {
                            let q = choose|q: int| 0 <= q < row@.len() && row@[q] == y as usize;
                            assert(row@[q] < b);
                        }
                    }
                }
            }
            b = b + 1;
        }
        adj.push(row);
        a = a + 1;
    }
    proof {
        assert forall|x: usize, y: usize|
            (x as int) < n && (y as int) < n implies (#[trigger] has_edge(adj@, x, y) <==> depends_on(
            modules@,
            chunks@,
            edges@,
            x as int,
            y as int,
        )) by {
            assert(adj@[x as int]@.contains(y) <==> depends_on(modules@, chunks@, edges@, x as int, y as int));
        }
    }
    adj
}

/// A reported cycle `[m0, m1, ..., mn, m0]` of module identifiers: each
/// module depends on the next, the last repeats the first, and no module
/// repeats before that.
pub open spec fn is_module_cycle(
    modules: Seq<Module>,
    chunks: Seq<Chunk>,
    edges: Seq<Edge>,
    c: Seq<String>,
) -> bool {
    &&& c.len() >= 2
    &&& c[0]@ == c[c.len() - 1]@
    &&& forall|i: int|
        0 <= i < c.len() - 1 ==> module_edge_count(modules, chunks, edges, c[i]@, (#[trigger] c[i + 1])@)
            > 0
    &&& forall|i: int, j: int| 0 <= i < j < c.len() - 1 ==> (#[trigger] c[i])@ != (#[trigger] c[j])@
}

/// A closed walk of module positions: each module depends on the next, the
/// last repeating the first.
pub open spec fn is_module_walk(modules: Seq<Module>, chunks: Seq<Chunk>, edges: Seq<Edge>, c: Seq<usize>) -> bool {
    &&& c.len() >= 2
    &&& c[0] == c[c.len() - 1]
    &&& forall|i: int| 0 <= i < c.len() ==> (#[trigger] c[i] as int) < modules.len()
    &&& forall|i: int| 0 <= i < c.len() - 1 ==> depends_on(modules, chunks, edges, c[i] as int, #[trigger] c[i + 1] as int)
}

/// The module dependency graph holds a cycle.
pub open spec fn has_module_cycle(modules: Seq<Module>, chunks: Seq<Chunk>, edges: Seq<Edge>) -> bool {
    exists|c: Seq<usize>| #[trigger] is_module_walk(modules, chunks, edges, c)
}

/// The cycles of the module dependency graph that a depth-first search
/// meets, one per back edge, each as module identifiers whose last repeats
/// the first.
pub fn find_module_cycles(modules: &Vec<Module>, chunks: &Vec<Chunk>, edges: &Vec<Edge>) -> (r: Vec<
    Vec<String>,
>)
    requires
        edges@.len() * chunks@.len() <= usize::MAX,
        crate::project::ids_unique(modules@),
    ensures
        forall|k: int| 0 <= k < r@.len() ==> is_module_cycle(modules@, chunks@, edges@, (#[trigger] r@[k])@),
        r@.len() == 0 <==> !has_module_cycle(modules@, chunks@, edges@),
{
    let adj = module_adjacency(modules, chunks, edges);
    let cycles = find_cycles(&adj);
    proof {
        if has_module_cycle(modules@, chunks@, edges@) {
            let c = choose|c: Seq<usize>| #[trigger] is_module_walk(modules@, chunks@, edges@, c);
            assert forall|i: int| 0 <= i < c.len() - 1 implies #[trigger] has_edge(adj@, c[i], c[i + 1]) by {
                assert(depends_on(modules@, chunks@, edges@, c[i] as int, c[i + 1] as int));
                assert((c[i] as int) < modules@.len());
                assert((c[i + 1] as int) < modules@.len());
            }
            assert(is_closed_walk(adj@, c));
        }
        if has_cycle(adj@) {
            let c = choose|c: Seq<usize>| #[trigger] is_closed_walk(adj@, c);
            assert forall|i: int| 0 <= i < c.len() implies (#[trigger] c[i] as int) < modules@.len() by {
                if i < c.len() - 1 {
                    assert(has_edge(adj@, c[i], c[i + 1]));
                } else {
                    let z: int = 0;
                    assert(has_edge(adj@, c[z], c[z + 1]));
                }
            }
            assert forall|i: int| 0 <= i < c.len() - 1 implies depends_on(modules@, chunks@, edges@, c[i] as int, #[trigger] c[i + 1] as int) by {
                assert(has_edge(adj@, c[i], c[i + 1]));
            }
            assert(is_module_walk(modules@, chunks@, edges@, c));
        }
    }
    let mut out: Vec<Vec<String>> = Vec::new();
    let mut k: usize = 0;
    while k < cycles.len()
        invariant
            0 <= k <= cycles@.len(),
            adj@.len() == modules@.len(),
            adjacency_wf(adj@),
            forall|q: int| 0 <= q < cycles@.len() ==> is_reported_cycle(adj@, #[trigger] cycles@[q]@),
            forall|a: usize, b: usize|
                (a as int) < modules@.len() && (b as int) < modules@.len() ==> (#[trigger] has_edge(
                    adj@,
                    a,
                    b,
                ) <==> depends_on(modules@, chunks@, edges@, a as int, b as int)),
            forall|q: int| 0 <= q < out@.len() ==> is_module_cycle(modules@, chunks@, edges@, (#[trigger] out@[q])@),
            out@.len() == k,
            crate::project::ids_unique(modules@),
        decreases cycles@.len() - k,
    {
        let c = &cycles[k];
        assert(is_reported_cycle(adj@, c@));
        let mut ids: Vec<String> = Vec::new();
        let mut i: usize = 0;
        while i < c.len()
            invariant
                0 <= i <= c@.len(),
                adj@.len() == modules@.len(),
                is_reported_cycle(adj@, c@),
                ids@.len() == i,
                forall|j: int| 0 <= j < i ==> (#[trigger] ids@[j])@ == modules@[c@[j] as int].id@,
            decreases c@.len() - i,
        {
            let idx = c[i];
            proof {
                if i + 1 < c@.len() {
                    assert(has_edge(adj@, c@[i as int], c@[i as int + 1]));
                } else {
                    let z: int = 0;
                    assert(c@[i as int] == c@[z]);
                    assert(has_edge(adj@, c@[z], c@[z + 1]));
                }
            }
            ids.push(modules[idx].id.clone());
            i = i + 1;
        }
        proof {
            assert forall|j: int| 0 <= j < ids@.len() - 1 implies module_edge_count(
                modules@,
                chunks@,
                edges@,
                ids@[j]@,
                (#[trigger] ids@[j + 1])@,
            ) > 0 by {
                assert(has_edge(adj@, c@[j], c@[j + 1]));
                assert((c@[j] as int) < adj@.len());
                assert((c@[j + 1] as int) < adj@.len());
                assert(depends_on(modules@, chunks@, edges@, c@[j] as int, c@[j + 1] as int));
            }
            assert forall|a: int, b: int| 0 <= a < b < ids@.len() - 1 implies (#[trigger] ids@[a])@ != (#[trigger] ids@[b])@ by {
                assert(c@[a] != c@[b]);
                let (x, y) = (c@[a] as int, c@[b] as int);
                assert(has_edge(adj@, c@[a], c@[a + 1]));
                assert(has_edge(adj@, c@[b], c@[b + 1]));
                if x < y {
                    assert(modules@[x].id@ != modules@[y].id@);
                } else {
                    assert(modules@[y].id@ != modules@[x].id@);
                }
            }
        }
        out.push(ids);
        proof {
            assert forall|q: int| 0 <= q < out@.len() implies is_module_cycle(modules@, chunks@, edges@, (#[trigger] out@[q])@) by {
                if q < out@.len() - 1 {
                }
            }
        }
        k = k + 1;
    }
    out
}

/// The position of the first module with identifier `id`, from `k` on.
pub open spec fn module_index_from(modules: Seq<Module>, id: Seq<char>, k: int) -> Option<int>
    decreases modules.len() - k,
{
    if k < 0 || k >= modules.len() {
        None
    } else if modules[k].id@ == id {
        Some(k)
    } else {
        module_index_from(modules, id, k + 1)
    }
}

/// The crate that module `id` rolls up to: the module itself where it is not
/// a plain directory, else the crate of its parent, following at most `fuel` parents.
pub open spec fn crate_of_from(modules: Seq<Module>, id: Seq<char>, fuel: nat) -> Option<Seq<char>>
    decreases fuel,
{
    match module_index_from(modules, id, 0) {
        None => None,
        Some(k) => if modules[k].project_type != ProjectType::Directory {
            Some(id)
        } else if fuel == 0 {
            None
        } else {
            match modules[k].parent_id {
                Some(p) => crate_of_from(modules, p@, (fuel - 1) as nat),
                None => None,
            }
        },
    }
}

/// The crate of an optional module.
pub open spec fn crate_of(modules: Seq<Module>, id: Option<Seq<char>>) -> Option<Seq<char>> {
    match id {
        Some(x) => crate_of_from(modules, x, modules.len()),
        None => None,
    }
}

fn module_index(modules: &Vec<Module>, id: &str) -> (r: Option<usize>)
    ensures
        module_index_from(modules@, id@, 0) == match r {
            Some(k) => Some(k as int),
            None => None::<int>,
        },
        r matches Some(k) ==> k < modules@.len(),
{
    let mut k: usize = 0;
    while k < modules.len()
        invariant
            0 <= k <= modules@.len(),
            module_index_from(modules@, id@, 0) == module_index_from(modules@, id@, k as int),
        decreases modules@.len() - k,
    {
        if text_eq(modules[k].id.as_str(), id) {
            return Some(k);
        }
        k = k + 1;
    }
    None
}

/// The crate that module `id` rolls up to.
pub fn crate_of_module(modules: &Vec<Module>, id: &str) -> (r: Option<String>)
    ensures
        opt_text(r) == crate_of(modules@, Some(id@)),
{
    let mut cur = crate::text::text_of(id);
    let mut fuel: usize = modules.len();
    loop
        invariant
            fuel <= modules@.len(),
            crate_of_from(modules@, cur@, fuel as nat) == crate_of(modules@, Some(id@)),
        decreases fuel,
    {
        match module_index(modules, cur.as_str()) {
            None => {
                return None;
            },
            Some(k) => {
                if modules[k].project_type != ProjectType::Directory {
                    return Some(cur);
                }
                if fuel == 0 {
                    return None;
                }
                match &modules[k].parent_id {
                    Some(p) => {
                        cur = p.clone();
                        fuel = fuel - 1;
                    },
                    None => {
                        return None;
                    },
                }
            },
        }
    }
}

/// Some chunk carries the symbol name `t`.
pub open spec fn symbol_defined(chunks: Seq<Chunk>, t: Seq<char>) -> bool {
    exists|j: int| 0 <= j < chunks.len() && opt_text((#[trigger] chunks[j]).symbol_name) == Some(t)
}

fn symbol_defined_exec(chunks: &Vec<Chunk>, t: &str) -> (r: bool)
    ensures
        r == symbol_defined(chunks@, t@),
{
    let mut j: usize = 0;
    while j < chunks.len()
        invariant
            0 <= j <= chunks@.len(),
            forall|q: int| 0 <= q < j ==> opt_text((#[trigger] chunks@[q]).symbol_name) != Some(t@),
        decreases chunks@.len() - j,
    {
        if option_text_eq(&chunks[j].symbol_name, t) {
            return true;
        }
        j = j + 1;
    }
    false
}

/// `name` with each `-` replaced by `_`.
pub open spec fn underscored(name: Seq<char>) -> Seq<char> {
    Seq::new(name.len(), |i: int| if name[i] == '-' { '_' } else { name[i] })
}

/// The target `t` names the module called `name`: it is the name, or the
/// name with `-` as `_`, alone or followed by `::`.
pub open spec fn names_module(t: Seq<char>, name: Seq<char>) -> bool {
    t == name || starts_with(t, name + "::"@) || t == underscored(name) || starts_with(
        t,
        underscored(name) + "::"@,
    )
}

fn names_module_exec(t: &str, name: &str) -> (r: bool)
    ensures
        r == names_module(t@, name@),
{
    let n = chars_of(name);
    let mut u: Vec<char> = Vec::new();
    let mut i: usize = 0;
    while i < n.len()
        invariant
            n@ == name@,
            0 <= i <= n@.len(),
            u@ == underscored(n@).subrange(0, i as int),
        decreases n@.len() - i,
    {
        if n[i] == '-' {
            u.push('_');
        } else {
            u.push(n[i]);
        }
        assert(u@ =~= underscored(n@).subrange(0, i as int + 1));
        i = i + 1;
    }
    assert(u@ =~= underscored(n@));
    let tc = chars_of(t);
    let sep = chars_of("::");
    let mut n2 = n.clone();
    let mut u2 = u.clone();
    let mut k: usize = 0;
    while k < sep.len()
        invariant
            0 <= k <= sep@.len(),
            n2@ == n@ + sep@.subrange(0, k as int),
            u2@ == u@ + sep@.subrange(0, k as int),
        decreases sep@.len() - k,
    {
        n2.push(sep[k]);
        u2.push(sep[k]);
        assert(n2@ =~= n@ + sep@.subrange(0, k as int + 1));
        assert(u2@ =~= u@ + sep@.subrange(0, k as int + 1));
        k = k + 1;
    }
    assert(sep@.subrange(0, sep@.len() as int) =~= sep@);
    text_eq(t, name) || has_prefix(&tc, &n2) || text_eq(t, string_of(&u).as_str()) || has_prefix(
        &tc,
        &u2,
    )
}

/// Edge `e` from crate `s` reaches chunk `c` of another crate `t` by exact symbol name.
pub open spec fn crate_direct_pair(
    modules: Seq<Module>,
    chunks: Seq<Chunk>,
    e: Edge,
    c: Chunk,
    s: Seq<char>,
    t: Seq<char>,
) -> bool {
    &&& crate_of(modules, source_module(chunks, e)) == Some(s)
    &&& opt_text(c.symbol_name) == Some(e.target_query@)
    &&& crate_of(modules, opt_text(c.module_id)) == Some(t)
    &&& t != s
}

/// Edge `e` from crate `s` names module `m` (not a plain directory, not `s`)
/// by its name, and no chunk carries the target as its symbol name.
pub open spec fn crate_prefix_edge(
    modules: Seq<Module>,
    chunks: Seq<Chunk>,
    e: Edge,
    m: Module,
    s: Seq<char>,
) -> bool {
    &&& m.project_type != ProjectType::Directory
    &&& crate_of(modules, source_module(chunks, e)) == Some(s)
    &&& m.id@ != s
    &&& names_module(e.target_query@, m.name@)
    &&& !symbol_defined(chunks, e.target_query@)
}

/// The number of dependencies of crate `s` on crate `t`: direct (edge,
/// chunk) pairs, and edges that name a module with identifier `t`.
pub open spec fn crate_edge_count(
    modules: Seq<Module>,
    chunks: Seq<Chunk>,
    edges: Seq<Edge>,
    s: Seq<char>,
    t: Seq<char>,
) -> int {
    sum_to(
        edges.len() as int,
        |i: int|
            sum_to(
                chunks.len() as int,
                |j: int|
                    if crate_direct_pair(modules, chunks, edges[i], chunks[j], s, t) {
                        1int
                    } else {
                        0int
                    },
            ) + sum_to(
                modules.len() as int,
                |k: int|
                    if modules[k].id@ == t && crate_prefix_edge(modules, chunks, edges[i], modules[k], s) {
                        1int
                    } else {
                        0int
                    },
            ),
    )
}

/// The number of dependencies of crate `s` on crate `t`.
pub fn count_crate_edges(
    modules: &Vec<Module>,
    chunks: &Vec<Chunk>,
    edges: &Vec<Edge>,
    s: &str,
    t: &str,
) -> (r: usize)
    requires
        edges@.len() * (chunks@.len() + modules@.len()) <= usize::MAX,
    ensures
        r == crate_edge_count(modules@, chunks@, edges@, s@, t@),
{
    let ghost per_edge = |i: int|
        sum_to(
            chunks@.len() as int,
            |j: int|
                if crate_direct_pair(modules@, chunks@, edges@[i], chunks@[j], s@, t@) {
                    1int
                } else {
                    0int
                },
        ) + sum_to(
            modules@.len() as int,
            |k: int|
                if modules@[k].id@ == t@ && crate_prefix_edge(modules@, chunks@, edges@[i], modules@[k], s@) {
                    1int
                } else {
                    0int
                },
        );
    if edges.len() == 0 {
        return 0;
    }
    assert(chunks@.len() + modules@.len() <= edges@.len() * (chunks@.len() + modules@.len()))
        by (nonlinear_arith)
        requires
            edges@.len() >= 1,
    ;
    let w = chunks.len() + modules.len();
    let mut total: usize = 0;
    let mut i: usize = 0;
    while i < edges.len()
        invariant
            0 <= i <= edges@.len(),
            w == chunks@.len() + modules@.len(),
            edges@.len() * w <= usize::MAX,
            total == sum_to(i as int, per_edge),
            total <= i * w,
            per_edge == (|i: int|
                sum_to(
                    chunks@.len() as int,
                    |j: int|
                        if crate_direct_pair(modules@, chunks@, edges@[i], chunks@[j], s@, t@) {
                            1int
                        } else {
                            0int
                        },
                ) + sum_to(
                    modules@.len() as int,
                    |k: int|
                        if modules@[k].id@ == t@ && crate_prefix_edge(modules@, chunks@, edges@[i], modules@[k], s@) {
                            1int
                        } else {
                            0int
                        },
                )),
        decreases edges@.len() - i,
    {
        let e = &edges[i];
        let src = source_module_of(chunks, e);
        let src_crate = match &src {
            Some(x) => crate_of_module(modules, x.as_str()),
            None => None,
        };
        let from_s = option_text_eq(&src_crate, s);
        let ghost f = |j: int|
            if crate_direct_pair(modules@, chunks@, edges@[i as int], chunks@[j], s@, t@) {
                1int
            } else {
                0int
            };
        let ghost g = |k: int|
            if modules@[k].id@ == t@ && crate_prefix_edge(modules@, chunks@, edges@[i as int], modules@[k], s@) {
                1int
            } else {
                0int
            };
        let same = text_eq(t, s);
        let mut direct: usize = 0;
        let mut j: usize = 0;
        while j < chunks.len()
            invariant
                0 <= j <= chunks@.len(),
                e == &edges@[i as int],
                from_s == (crate_of(modules@, source_module(chunks@, *e)) == Some(s@)),
                same == (t@ == s@),
                direct == sum_to(j as int, f),
                direct <= j,
                f == (|j: int|
                    if crate_direct_pair(modules@, chunks@, edges@[i as int], chunks@[j], s@, t@) {
                        1int
                    } else {
                        0int
                    }),
            decreases chunks@.len() - j,
        {
            let c = &chunks[j];
            if from_s && !same && option_text_eq(&c.symbol_name, e.target_query.as_str()) {
                let cc = match &c.module_id {
                    Some(x) => crate_of_module(modules, x.as_str()),
                    None => None,
                };
                if option_text_eq(&cc, t) {
                    direct = direct + 1;
                }
            }
            j = j + 1;
        }
        let defined = symbol_defined_exec(chunks, e.target_query.as_str());
        let mut named: usize = 0;
        let mut k: usize = 0;
        while k < modules.len()
            invariant
                0 <= k <= modules@.len(),
                e == &edges@[i as int],
                from_s == (crate_of(modules@, source_module(chunks@, *e)) == Some(s@)),
                same == (t@ == s@),
                defined == symbol_defined(chunks@, e.target_query@),
                named == sum_to(k as int, g),
                named <= k,
                g == (|k: int|
                    if modules@[k].id@ == t@ && crate_prefix_edge(modules@, chunks@, edges@[i as int], modules@[k], s@) {
                        1int
                    } else {
                        0int
                    }),
            decreases modules@.len() - k,
        {
            let m = &modules[k];
            if from_s && !defined && m.project_type != ProjectType::Directory && text_eq(
                m.id.as_str(),
                t,
            ) && !text_eq(m.id.as_str(), s) && names_module_exec(
                e.target_query.as_str(),
                m.name.as_str(),
            ) {
                named = named + 1;
            }
            k = k + 1;
        }
        assert(per_edge(i as int) == sum_to(chunks@.len() as int, f) + sum_to(modules@.len() as int, g));
        assert((i + 1) * w <= edges@.len() * w) by (nonlinear_arith)
            requires
                i < edges@.len(),
        ;
        assert(i * w + w == (i + 1) * w) by (nonlinear_arith);
        total = total + direct + named;
        i = i + 1;
    }
    total
}

/// The view of a crate dependency list.
pub open spec fn crate_deps_prefix(
    modules: Seq<Module>,
    chunks: Seq<Chunk>,
    edges: Seq<Edge>,
    s: Seq<char>,
    k: int,
) -> Seq<(Seq<char>, int)>
    decreases k,
{
    if k <= 0 {
        Seq::empty()
    } else {
        let rest = crate_deps_prefix(modules, chunks, edges, s, k - 1);
        let t = modules[k - 1].id@;
        let c = crate_edge_count(modules, chunks, edges, s, t);
        if modules[k - 1].project_type != ProjectType::Directory && c > 0 {
            rest.push((t, c))
        } else {
            rest
        }
    }
}

/// The crate-level dependencies of crate `s`, in the order of `modules`:
/// each other crate (a module that is not a plain directory) that `s`
/// depends on, with the number of dependencies.
pub fn crate_dependencies(
    modules: &Vec<Module>,
    chunks: &Vec<Chunk>,
    edges: &Vec<Edge>,
    s: &str,
) -> (r: Vec<(String, usize)>)
    requires
        edges@.len() * (chunks@.len() + modules@.len()) <= usize::MAX,
    ensures
        deps_view(r@) == crate_deps_prefix(modules@, chunks@, edges@, s@, modules@.len() as int),
{
    let mut out: Vec<(String, usize)> = Vec::new();
    let mut k: usize = 0;
    while k < modules.len()
        invariant
            0 <= k <= modules@.len(),
            edges@.len() * (chunks@.len() + modules@.len()) <= usize::MAX,
            deps_view(out@) == crate_deps_prefix(modules@, chunks@, edges@, s@, k as int),
        decreases modules@.len() - k,
    {
        if modules[k].project_type != ProjectType::Directory {
            let c = count_crate_edges(modules, chunks, edges, s, modules[k].id.as_str());
            if c > 0 {
                let ghost before = out@;
                out.push((modules[k].id.clone(), c));
                assert(deps_view(out@) =~= deps_view(before).push((modules@[k as int].id@, c as int)));
            }
        }
        k = k + 1;
    }
    out
}

/// Module `m` is `top` or lies below it, following at most `fuel` parents.
pub open spec fn within_from(modules: Seq<Module>, m: Seq<char>, top: Seq<char>, fuel: nat) -> bool
    decreases fuel,
{
    if m == top {
        true
    } else if fuel == 0 {
        false
    } else {
        match module_index_from(modules, m, 0) {
            Some(k) => match modules[k].parent_id {
                Some(p) => within_from(modules, p@, top, (fuel - 1) as nat),
                None => false,
            },
            None => false,
        }
    }
}

/// Optional module `m` is `top` or lies below it.
pub open spec fn within(modules: Seq<Module>, m: Option<Seq<char>>, top: Seq<char>) -> bool {
    match m {
        Some(x) => within_from(modules, x, top, modules.len()),
        None => false,
    }
}

/// Whether module `m` is `top` or lies below it.
pub fn is_within(modules: &Vec<Module>, m: &str, top: &str) -> (r: bool)
    ensures
        r == within(modules@, Some(m@), top@),
{
    let mut cur = crate::text::text_of(m);
    let mut fuel: usize = modules.len();
    loop
        invariant
            fuel <= modules@.len(),
            within_from(modules@, cur@, top@, fuel as nat) == within(modules@, Some(m@), top@),
        decreases fuel,
    {
        if text_eq(cur.as_str(), top) {
            return true;
        }
        if fuel == 0 {
            return false;
        }
        match module_index(modules, cur.as_str()) {
            None => {
                return false;
            },
            Some(k) => match &modules[k].parent_id {
                Some(p) => {
                    cur = p.clone();
                    fuel = fuel - 1;
                },
                None => {
                    return false;
                },
            },
        }
    }
}

/// The symbol name of the source chunk of `e`.
pub open spec fn source_symbol_from(chunks: Seq<Chunk>, e: Edge, i: int) -> Option<Seq<char>>
    decreases chunks.len() - i,
{
    if i < 0 || i >= chunks.len() {
        None
    } else if chunks[i].content_hash@ == e.source_hash@ {
        opt_text(chunks[i].symbol_name)
    } else {
        source_symbol_from(chunks, e, i + 1)
    }
}

/// Edge `e`, from a chunk within `s`, names chunk `c` within `t`.
pub open spec fn detail_pair(modules: Seq<Module>, chunks: Seq<Chunk>, e: Edge, c: Chunk, s: Seq<char>, t: Seq<char>) -> bool {
    &&& within(modules, source_module(chunks, e), s)
    &&& names_symbol(e.target_query@, opt_text(c.symbol_name))
    &&& within(modules, opt_text(c.module_id), t)
}

/// The detail of an edge: source symbol (or `unknown`), target, line and kind.
pub open spec fn detail_of(chunks: Seq<Chunk>, e: Edge) -> (Seq<char>, Seq<char>, Option<usize>, crate::chunk::EdgeKind) {
    (
        match source_symbol_from(chunks, e, 0) {
            Some(x) => x,
            None => "unknown"@,
        },
        e.target_query@,
        e.line_number,
        e.kind,
    )
}

/// The details of the (edge, chunk) pairs from `s` to `t`: for each edge in
/// order, one per chunk among the first `j` that it names.
pub open spec fn details_for_edge(
    modules: Seq<Module>,
    chunks: Seq<Chunk>,
    e: Edge,
    s: Seq<char>,
    t: Seq<char>,
    j: int,
) -> Seq<(Seq<char>, Seq<char>, Option<usize>, crate::chunk::EdgeKind)>
    decreases j,
{
    if j <= 0 {
        Seq::empty()
    } else {
        let rest = details_for_edge(modules, chunks, e, s, t, j - 1);
        if detail_pair(modules, chunks, e, chunks[j - 1], s, t) {
            rest.push(detail_of(chunks, e))
        } else {
            rest
        }
    }
}

/// The details of the dependencies of `s` on `t` over the first `i` edges.
pub open spec fn details_upto(
    modules: Seq<Module>,
    chunks: Seq<Chunk>,
    edges: Seq<Edge>,
    s: Seq<char>,
    t: Seq<char>,
    i: int,
) -> Seq<(Seq<char>, Seq<char>, Option<usize>, crate::chunk::EdgeKind)>
    decreases i,
{
    if i <= 0 {
        Seq::empty()
    } else {
        details_upto(modules, chunks, edges, s, t, i - 1) + details_for_edge(
            modules,
            chunks,
            edges[i - 1],
            s,
            t,
            chunks.len() as int,
        )
    }
}

fn source_symbol_of(chunks: &Vec<Chunk>, e: &Edge) -> (r: Option<String>)
    ensures
        opt_text(r) == source_symbol_from(chunks@, *e, 0),
{
    let mut i: usize = 0;
    while i < chunks.len()
        invariant
            0 <= i <= chunks@.len(),
            source_symbol_from(chunks@, *e, 0) == source_symbol_from(chunks@, *e, i as int),
        decreases chunks@.len() - i,
    {
        if chunks[i].content_hash == e.source_hash {
            return match &chunks[i].symbol_name {
                Some(x) => Some(x.clone()),
                None => None,
            };
        }
        i = i + 1;
    }
    None
}

/// The view of edge details.
pub open spec fn details_view(d: Seq<crate::service::ModuleEdgeDetail>) -> Seq<(Seq<char>, Seq<char>, Option<usize>, crate::chunk::EdgeKind)> {
    Seq::new(d.len(), |i: int| (d[i].source_symbol@, d[i].target_symbol@, d[i].line_number, d[i].kind))
}

/// The chunk-level edges behind the dependency of `s` on `t`: each edge that
/// leaves a chunk within `s` (or below it) and names a chunk within `t`, once
/// per such chunk, with its source symbol, target, line and kind.
pub fn edge_details(
    modules: &Vec<Module>,
    chunks: &Vec<Chunk>,
    edges: &Vec<Edge>,
    s: &str,
    t: &str,
) -> (r: Vec<crate::service::ModuleEdgeDetail>)
    ensures
        details_view(r@) == details_upto(modules@, chunks@, edges@, s@, t@, edges@.len() as int),
{
    let mut out: Vec<crate::service::ModuleEdgeDetail> = Vec::new();
    let mut i: usize = 0;
    while i < edges.len()
        invariant
            0 <= i <= edges@.len(),
            details_view(out@) == details_upto(modules@, chunks@, edges@, s@, t@, i as int),
        decreases edges@.len() - i,
    {
        let e = &edges[i];
        let src_module = source_module_of(chunks, e);
        let from_s = match &src_module {
            Some(m) => is_within(modules, m.as_str(), s),
            None => false,
        };
        let sym = match source_symbol_of(chunks, e) {
            Some(x) => x,
            None => crate::text::text_of("unknown"),
        };
        let ghost base = out@;
        let mut j: usize = 0;
        while j < chunks.len()
            invariant
                0 <= j <= chunks@.len(),
                e == &edges@[i as int],
                from_s == within(modules@, source_module(chunks@, *e), s@),
                sym@ == detail_of(chunks@, *e).0,
                details_view(out@) == details_view(base) + details_for_edge(modules@, chunks@, *e, s@, t@, j as int),
            decreases chunks@.len() - j,
        {
            let c = &chunks[j];
            let ghost before = out@;
            if from_s && target_names_symbol(e.target_query.as_str(), &c.symbol_name) {
                let in_t = match &c.module_id {
                    Some(m) => is_within(modules, m.as_str(), t),
                    None => false,
                };
                if in_t {
                    out.push(crate::service::ModuleEdgeDetail {
                        source_symbol: sym.clone(),
                        target_symbol: e.target_query.clone(),
                        line_number: e.line_number,
                        kind: e.kind,
                    });
                    assert(details_view(out@) =~= details_view(before).push(detail_of(chunks@, *e)));
                }
            }
            j = j + 1;
        }
        assert(details_view(out@) =~= details_upto(modules@, chunks@, edges@, s@, t@, i as int + 1));
        i = i + 1;
    }
    out
}

} // verus!
