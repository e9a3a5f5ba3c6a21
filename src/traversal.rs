//! Pre-order traversal of the symbol dependency graph, with a cycle guard
//! and a depth cap.
use crate::chunk::{Chunk, Edge};
use crate::query::opt_text;
use crate::text::{chars_of, starts_with, text_eq, text_of};
use vstd::prelude::*;

verus! {

/// The symbol graph: `names[i]` is a symbol, `deps[i]` its outgoing
/// dependencies (sorted and without repeats), `defined[i]` whether some chunk
/// carries that symbol name, and `common[i]` whether it is on the allowlist
/// of common symbols whose repetition is not reported as a cycle.
#[derive(Clone, Debug)]
pub struct SymbolGraph {
    pub names: Vec<String>,
    pub deps: Vec<Vec<usize>>,
    pub defined: Vec<bool>,
    pub common: Vec<bool>,
}

impl SymbolGraph {
    /// The tables have one entry per symbol and every dependency is a symbol.
    pub open spec fn wf(&self) -> bool {
        &&& self.deps@.len() == self.names@.len()
        &&& self.defined@.len() == self.names@.len()
        &&& self.common@.len() == self.names@.len()
        &&& forall|i: int, j: int|
            0 <= i < self.deps@.len() && 0 <= j < self.deps@[i]@.len() ==> (
            #[trigger] self.deps@[i]@[j] as int) < self.names@.len()
    }
}

/// One line of a dependency tree: a symbol at a depth. `repeated` marks a
/// symbol met before, which is not expanded again; `cycle` marks one whose
/// repetition is reported as a cycle (a repeated symbol not on the allowlist).
#[derive(Clone, Copy, Debug, PartialEq, Eq, Structural)]
pub struct TreeNode {
    pub symbol: usize,
    pub depth: usize,
    pub repeated: bool,
    pub cycle: bool,
}

/// The nodes that the traversal from `s` at `depth` emits, and the visited
/// marks after it.
pub open spec fn walk(
    deps: Seq<Vec<usize>>,
    common: Seq<bool>,
    s: usize,
    depth: usize,
    max_depth: usize,
    visited: Seq<bool>,
) -> (Seq<TreeNode>, Seq<bool>)
    decreases max_depth - depth, 1int, 0int,
{
    if depth > max_depth {
        (Seq::empty(), visited)
    } else if visited[s as int] {
        (
            seq![TreeNode { symbol: s, depth, repeated: true, cycle: !common[s as int] }],
            visited,
        )
    } else if depth == max_depth {
        (
            seq![TreeNode { symbol: s, depth, repeated: false, cycle: false }],
            visited.update(s as int, true),
        )
    } else {
        let r = walk_list(
            deps,
            common,
            deps[s as int]@,
            0,
            (depth + 1) as usize,
            max_depth,
            visited.update(s as int, true),
        );
        (seq![TreeNode { symbol: s, depth, repeated: false, cycle: false }] + r.0, r.1)
    }
}

/// The nodes that the traversal of `list[i..]`, each at `depth`, emits.
pub open spec fn walk_list(
    deps: Seq<Vec<usize>>,
    common: Seq<bool>,
    list: Seq<usize>,
    i: int,
    depth: usize,
    max_depth: usize,
    visited: Seq<bool>,
) -> (Seq<TreeNode>, Seq<bool>)
    decreases max_depth - depth + 1, 0int, list.len() - i,
{
    if i >= list.len() || i < 0 || depth > max_depth || depth == 0 {
        (Seq::empty(), visited)
    } else {
        let a = walk(deps, common, list[i], depth, max_depth, visited);
        let b = walk_list(deps, common, list, i + 1, depth, max_depth, a.1);
        (a.0 + b.0, b.1)
    }
}

/// Every dependency is below `n`.
pub open spec fn deps_below(deps: Seq<Vec<usize>>, n: int) -> bool {
    &&& deps.len() == n
    &&& forall|i: int, j: int|
        0 <= i < deps.len() && 0 <= j < deps[i]@.len() ==> (#[trigger] deps[i]@[j] as int) < n
}

/// Visited marks keep their length along a traversal.
proof fn lemma_walk_len(
    deps: Seq<Vec<usize>>,
    common: Seq<bool>,
    s: usize,
    depth: usize,
    max_depth: usize,
    visited: Seq<bool>,
)
    requires
        deps_below(deps, visited.len() as int),
        (s as int) < visited.len(),
    ensures
        walk(deps, common, s, depth, max_depth, visited).1.len() == visited.len(),
    decreases max_depth - depth, 1int, 0int,
{
    if depth <= max_depth && !visited[s as int] && depth < max_depth {
        lemma_walk_list_len(
            deps,
            common,
            deps[s as int]@,
            0,
            (depth + 1) as usize,
            max_depth,
            visited.update(s as int, true),
        );
    }
}

proof fn lemma_walk_list_len(
    deps: Seq<Vec<usize>>,
    common: Seq<bool>,
    list: Seq<usize>,
    i: int,
    depth: usize,
    max_depth: usize,
    visited: Seq<bool>,
)
    requires
        deps_below(deps, visited.len() as int),
        forall|j: int| 0 <= j < list.len() ==> (#[trigger] list[j] as int) < visited.len(),
    ensures
        walk_list(deps, common, list, i, depth, max_depth, visited).1.len() == visited.len(),
    decreases max_depth - depth + 1, 0int, list.len() - i,
{
    if !(i >= list.len() || i < 0 || depth > max_depth || depth == 0) {
        lemma_walk_len(deps, common, list[i], depth, max_depth, visited);
        let a = walk(deps, common, list[i], depth, max_depth, visited);
        lemma_walk_list_len(deps, common, list, i + 1, depth, max_depth, a.1);
    }
}

fn walk_exec(
    g: &SymbolGraph,
    s: usize,
    depth: usize,
    max_depth: usize,
    visited: &mut Vec<bool>,
    out: &mut Vec<TreeNode>,
)
    requires
        g.wf(),
        (s as int) < g.names@.len(),
        depth <= max_depth,
        old(visited)@.len() == g.names@.len(),
    ensures
        ({
            let r = walk(g.deps@, g.common@, s, depth, max_depth, old(visited)@);
            final(out)@ == old(out)@ + r.0 && final(visited)@ == r.1
        }),
    decreases max_depth - depth, 1int, 0int,
{
    if visited[s] {
        out.push(TreeNode { symbol: s, depth, repeated: true, cycle: !g.common[s] });
        return;
    }
    out.push(TreeNode { symbol: s, depth, repeated: false, cycle: false });
    visited.set(s, true);
    if depth < max_depth {
        let ghost o1 = out@;
        walk_list_exec(g, s, depth + 1, max_depth, visited, out);
        assert(out@ =~= old(out)@ + walk(g.deps@, g.common@, s, depth, max_depth, old(visited)@).0);
    } else {
        assert(out@ =~= old(out)@ + walk(g.deps@, g.common@, s, depth, max_depth, old(visited)@).0);
    }
}

fn walk_list_exec(
    g: &SymbolGraph,
    s: usize,
    depth: usize,
    max_depth: usize,
    visited: &mut Vec<bool>,
    out: &mut Vec<TreeNode>,
)
    requires
        g.wf(),
        (s as int) < g.names@.len(),
        1 <= depth <= max_depth,
        old(visited)@.len() == g.names@.len(),
    ensures
        ({
            let r = walk_list(g.deps@, g.common@, g.deps@[s as int]@, 0, depth, max_depth, old(visited)@);
            final(out)@ == old(out)@ + r.0 && final(visited)@ == r.1
        }),
    decreases max_depth - depth + 1, 0int, g.deps@[s as int]@.len(),
{
    let ghost list = g.deps@[s as int]@;
    let n = g.deps[s].len();
    let mut i: usize = 0;
    while i < n
        invariant
            g.wf(),
            (s as int) < g.names@.len(),
            1 <= depth <= max_depth,
            list == g.deps@[s as int]@,
            n == list.len(),
            0 <= i <= n,
            visited@.len() == g.names@.len(),
            ({
                let all = walk_list(g.deps@, g.common@, list, 0, depth, max_depth, old(visited)@);
                let rest = walk_list(g.deps@, g.common@, list, i as int, depth, max_depth, visited@);
                &&& all.0 == out@.subrange(old(out)@.len() as int, out@.len() as int) + rest.0
                &&& all.1 == rest.1
                &&& out@.subrange(0, old(out)@.len() as int) == old(out)@
                &&& old(out)@.len() <= out@.len()
            }),
        decreases n - i,
    {
        let t = g.deps[s][i];
        assert(g.deps@[s as int]@[i as int] == t);
        let ghost v_before = visited@;
        let ghost o_before = out@;
        walk_exec(g, t, depth, max_depth, visited, out);
        proof {
            assert(deps_below(g.deps@, v_before.len() as int));
            lemma_walk_len(g.deps@, g.common@, t, depth, max_depth, v_before);
            let a = walk(g.deps@, g.common@, t, depth, max_depth, v_before);
            let start = old(out)@.len() as int;
            assert(out@ == o_before + a.0);
            assert(out@.subrange(start, out@.len() as int) =~= o_before.subrange(
                start,
                o_before.len() as int,
            ) + a.0);
            assert(out@.subrange(0, start) =~= o_before.subrange(0, start));
        }
        i = i + 1;
    }
    proof {
        let start = old(out)@.len() as int;
        assert(out@ =~= out@.subrange(0, start) + out@.subrange(start, out@.len() as int));
    }
}

/// What a traversal from `visited` to `after` that emitted `out` keeps:
/// marks are only added; each expanded (not repeated) node was unmarked
/// before and is marked after; no symbol is expanded twice.
pub open spec fn guarded(out: Seq<TreeNode>, visited: Seq<bool>, after: Seq<bool>) -> bool {
    &&& after.len() == visited.len()
    &&& forall|i: int| 0 <= i < visited.len() && #[trigger] visited[i] ==> after[i]
    &&& forall|k: int|
        0 <= k < out.len() && !(#[trigger] out[k]).repeated ==> (out[k].symbol as int) < visited.len()
            && !visited[out[k].symbol as int] && after[out[k].symbol as int]
    &&& forall|k1: int, k2: int|
        0 <= k1 < k2 < out.len() && !(#[trigger] out[k1]).repeated && !(#[trigger] out[k2]).repeated
            ==> out[k1].symbol != out[k2].symbol
}

proof fn lemma_guarded_concat(a: Seq<TreeNode>, b: Seq<TreeNode>, v0: Seq<bool>, v1: Seq<bool>, v2: Seq<bool>)
    requires
        guarded(a, v0, v1),
        guarded(b, v1, v2),
    ensures
        guarded(a + b, v0, v2),
{
    let ab = a + b;
    assert forall|k: int| 0 <= k < ab.len() && !(#[trigger] ab[k]).repeated implies (ab[k].symbol as int)
        < v0.len() && !v0[ab[k].symbol as int] && v2[ab[k].symbol as int] by {
        if k < a.len() {
            assert(ab[k] == a[k]);
        } else {
            assert(ab[k] == b[k - a.len()]);
            let x = ab[k].symbol as int;
            if v0[x] {
                assert(v1[x]);
            }
        }
    }
    assert forall|k1: int, k2: int|
        0 <= k1 < k2 < ab.len() && !(#[trigger] ab[k1]).repeated && !(#[trigger] ab[k2]).repeated
            implies ab[k1].symbol != ab[k2].symbol by {
        if k2 < a.len() {
            assert(ab[k1] == a[k1] && ab[k2] == a[k2]);
        } else if k1 >= a.len() {
            assert(ab[k1] == b[k1 - a.len()] && ab[k2] == b[k2 - a.len()]);
        } else {
            assert(ab[k1] == a[k1] && ab[k2] == b[k2 - a.len()]);
        }
    }
}

proof fn lemma_walk_guarded(
    deps: Seq<Vec<usize>>,
    common: Seq<bool>,
    s: usize,
    depth: usize,
    max_depth: usize,
    visited: Seq<bool>,
)
    requires
        deps_below(deps, visited.len() as int),
        (s as int) < visited.len(),
    ensures
        ({
            let r = walk(deps, common, s, depth, max_depth, visited);
            guarded(r.0, visited, r.1)
        }),
    decreases max_depth - depth, 1int, 0int,
{
    let r = walk(deps, common, s, depth, max_depth, visited);
    if depth > max_depth || visited[s as int] {
    } else {
        let v1 = visited.update(s as int, true);
        let head = seq![TreeNode { symbol: s, depth, repeated: false, cycle: false }];
        assert(guarded(head, visited, v1));
        if depth < max_depth {
            lemma_walk_list_guarded(deps, common, deps[s as int]@, 0, (depth + 1) as usize, max_depth, v1);
            let t = walk_list(deps, common, deps[s as int]@, 0, (depth + 1) as usize, max_depth, v1);
            lemma_guarded_concat(head, t.0, visited, v1, t.1);
        }
    }
}

proof fn lemma_walk_list_guarded(
    deps: Seq<Vec<usize>>,
    common: Seq<bool>,
    list: Seq<usize>,
    i: int,
    depth: usize,
    max_depth: usize,
    visited: Seq<bool>,
)
    requires
        deps_below(deps, visited.len() as int),
        forall|j: int| 0 <= j < list.len() ==> (#[trigger] list[j] as int) < visited.len(),
    ensures
        ({
            let r = walk_list(deps, common, list, i, depth, max_depth, visited);
            guarded(r.0, visited, r.1)
        }),
    decreases max_depth - depth + 1, 0int, list.len() - i,
{
    if i >= list.len() || i < 0 || depth > max_depth || depth == 0 {
    } else {
        lemma_walk_guarded(deps, common, list[i], depth, max_depth, visited);
        lemma_walk_len(deps, common, list[i], depth, max_depth, visited);
        let a = walk(deps, common, list[i], depth, max_depth, visited);
        lemma_walk_list_guarded(deps, common, list, i + 1, depth, max_depth, a.1);
        let b = walk_list(deps, common, list, i + 1, depth, max_depth, a.1);
        lemma_guarded_concat(a.0, b.0, visited, a.1, b.1);
    }
}

/// The cycle guard: in a dependency tree, however deep, no symbol is
/// expanded twice, so the tree has at most one expanded node per symbol.
pub proof fn lemma_tree_expands_each_symbol_once(g: SymbolGraph, s: usize, max_depth: usize)
    requires
        g.wf(),
        (s as int) < g.names@.len(),
    ensures
        ({
            let out = walk(g.deps@, g.common@, s, 0, max_depth, Seq::new(g.names@.len(), |i: int| false)).0;
            forall|k1: int, k2: int|
                0 <= k1 < k2 < out.len() && !(#[trigger] out[k1]).repeated && !(#[trigger] out[k2]).repeated
                    ==> out[k1].symbol != out[k2].symbol
        }),
{
    let v = Seq::new(g.names@.len(), |i: int| false);
    lemma_walk_guarded(g.deps@, g.common@, s, 0, max_depth, v);
}

/// The pre-order dependency tree of symbol `s`, at most `max_depth` levels
/// below it. Each symbol is expanded at most once; a repeated one is listed
/// and not expanded again.
pub fn dependency_tree(g: &SymbolGraph, s: usize, max_depth: usize) -> (r: Vec<TreeNode>)
    requires
        g.wf(),
        (s as int) < g.names@.len(),
    ensures
        r@ == walk(
            g.deps@,
            g.common@,
            s,
            0,
            max_depth,
            Seq::new(g.names@.len(), |i: int| false),
        ).0,
{
    let mut visited: Vec<bool> = Vec::new();
    let n = g.names.len();
    let mut i: usize = 0;
    while i < n
        invariant
            0 <= i <= n,
            n == g.names@.len(),
            visited@ == Seq::new(i as nat, |k: int| false),
        decreases n - i,
    {
        visited.push(false);
        proof {
            assert(visited@ =~= Seq::new((i + 1) as nat, |k: int| false));
        }
        i = i + 1;
    }
    let mut out: Vec<TreeNode> = Vec::new();
    walk_exec(g, s, 0, max_depth, &mut visited, &mut out);
    assert(out@ =~= walk(g.deps@, g.common@, s, 0, max_depth, Seq::new(n as nat, |i: int| false)).0);
    out
}

/// With depth 0 the tree of a symbol is that symbol alone.
pub proof fn lemma_tree_depth_zero(g: SymbolGraph, s: usize)
    requires
        g.wf(),
        (s as int) < g.names@.len(),
    ensures
        walk(g.deps@, g.common@, s, 0, 0, Seq::new(g.names@.len(), |i: int| false)).0 == seq![
            TreeNode { symbol: s, depth: 0, repeated: false, cycle: false },
        ],
{
}

/// `a` comes strictly before `b` in lexicographic character order.
pub open spec fn text_lt(a: Seq<char>, b: Seq<char>) -> bool
    decreases a.len(),
{
    if a.len() == 0 {
        b.len() > 0
    } else if b.len() == 0 {
        false
    } else if a[0] < b[0] {
        true
    } else if a[0] == b[0] {
        text_lt(a.drop_first(), b.drop_first())
    } else {
        false
    }
}

proof fn lemma_text_lt_transitive(a: Seq<char>, b: Seq<char>, c: Seq<char>)
    requires
        text_lt(a, b),
        text_lt(b, c),
    ensures
        text_lt(a, c),
    decreases a.len(),
{
    if a.len() > 0 && b.len() > 0 && c.len() > 0 && a[0] == b[0] && b[0] == c[0] {
        lemma_text_lt_transitive(a.drop_first(), b.drop_first(), c.drop_first());
    }
}

proof fn lemma_text_lt_irreflexive(a: Seq<char>)
    ensures
        !text_lt(a, a),
    decreases a.len(),
{
    if a.len() > 0 {
        lemma_text_lt_irreflexive(a.drop_first());
    }
}

proof fn lemma_text_lt_total(a: Seq<char>, b: Seq<char>)
    requires
        a != b,
    ensures
        text_lt(a, b) || text_lt(b, a),
    decreases a.len(),
{
    if a.len() > 0 && b.len() > 0 && a[0] == b[0] {
        if a.drop_first() == b.drop_first() {
            assert(a =~= seq![a[0]] + a.drop_first());
            assert(b =~= seq![b[0]] + b.drop_first());
        }
        lemma_text_lt_total(a.drop_first(), b.drop_first());
    } else if a.len() == 0 && b.len() == 0 {
        assert(a =~= b);
    }
}

fn text_less(a: &Vec<char>, b: &Vec<char>) -> (r: bool)
    ensures
        r == text_lt(a@, b@),
{
    let mut i: usize = 0;
    assert(a@.subrange(0, a@.len() as int) =~= a@);
    assert(b@.subrange(0, b@.len() as int) =~= b@);
    while i < a.len() && i < b.len()
        invariant
            0 <= i <= a@.len(),
            i <= b@.len(),
            text_lt(a@, b@) == text_lt(a@.subrange(i as int, a@.len() as int), b@.subrange(i as int, b@.len() as int)),
        decreases a@.len() - i,
    {
        let ghost sa = a@.subrange(i as int, a@.len() as int);
        let ghost sb = b@.subrange(i as int, b@.len() as int);
        if a[i] < b[i] {
            return true;
        }
        if a[i] > b[i] {
            return false;
        }
        assert(sa.drop_first() =~= a@.subrange(i as int + 1, a@.len() as int));
        assert(sb.drop_first() =~= b@.subrange(i as int + 1, b@.len() as int));
        i = i + 1;
    }
    i == a.len() && i < b.len()
}

/// `symbol` is `s`, or `s` followed by `(`.
pub open spec fn matches_common(symbol: Seq<char>, s: Seq<char>) -> bool {
    symbol == s || starts_with(symbol, s.push('('))
}

/// `symbol` is on the allowlist of common symbols.
pub open spec fn is_common(symbol: Seq<char>, allow: Seq<String>) -> bool {
    exists|k: int| 0 <= k < allow.len() && matches_common(symbol, (#[trigger] allow[k])@)
}

/// Whether `symbol` is on the allowlist of common symbols: equal to an
/// entry, or an entry followed by `(`.
pub fn is_common_symbol(symbol: &str, allow: &Vec<String>) -> (r: bool)
    ensures
        r == is_common(symbol@, allow@),
{
    let sc = chars_of(symbol);
    let mut k: usize = 0;
    while k < allow.len()
        invariant
            sc@ == symbol@,
            0 <= k <= allow@.len(),
            forall|q: int| 0 <= q < k ==> !matches_common(symbol@, (#[trigger] allow@[q])@),
        decreases allow@.len() - k,
    {
        let mut p = chars_of(allow[k].as_str());
        p.push('(');
        if text_eq(symbol, allow[k].as_str()) || crate::text::has_prefix(&sc, &p) {
            return true;
        }
        k = k + 1;
    }
    false
}

/// The position of `t` in `names`, if it is there.
fn name_index(names: &Vec<String>, t: &str) -> (r: Option<usize>)
    ensures
        r matches Some(i) ==> i < names@.len() && names@[i as int]@ == t@,
        r is None ==> forall|i: int| 0 <= i < names@.len() ==> (#[trigger] names@[i])@ != t@,
{
    let mut i: usize = 0;
    while i < names.len()
        invariant
            0 <= i <= names@.len(),
            forall|j: int| 0 <= j < i ==> (#[trigger] names@[j])@ != t@,
        decreases names@.len() - i,
    {
        if text_eq(names[i].as_str(), t) {
            return Some(i);
        }
        i = i + 1;
    }
    None
}

/// The names of `names` are pairwise different.
pub open spec fn names_distinct(names: Seq<String>) -> bool {
    forall|i: int, j: int| 0 <= i < j < names.len() ==> (#[trigger] names[i])@ != (#[trigger] names[j])@
}

/// `t` is among `names`.
pub open spec fn has_name(names: Seq<String>, t: Seq<char>) -> bool {
    exists|i: int| 0 <= i < names.len() && (#[trigger] names[i])@ == t
}

fn intern(names: &mut Vec<String>, t: &str) -> (r: usize)
    requires
        names_distinct(old(names)@),
    ensures
        names_distinct(final(names)@),
        r < final(names)@.len(),
        final(names)@[r as int]@ == t@,
        final(names)@.len() >= old(names)@.len(),
        forall|i: int| 0 <= i < old(names)@.len() ==> #[trigger] final(names)@[i] == old(names)@[i],
        forall|x: Seq<char>| #[trigger] has_name(final(names)@, x) <==> (has_name(old(names)@, x) || x == t@),
{
    match name_index(names, t) {
        Some(i) => {
            proof {
                assert forall|x: Seq<char>| #[trigger] has_name(names@, x) <==> (has_name(names@, x) || x == t@) by {
                    if x == t@ {
                        assert(names@[i as int]@ == x);
                    }
                }
            }
            i
        },
        None => {
            let ghost before = names@;
            names.push(text_of(t));
            proof {
                assert forall|a: int, b: int| 0 <= a < b < names@.len() implies (#[trigger] names@[a])@ != (#[trigger] names@[b])@ by {
                    if b < before.len() {
                        assert(before[a]@ != before[b]@);
                    } else {
                        assert(names@[a] == before[a]);
                    }
                }
                assert forall|x: Seq<char>| #[trigger] has_name(names@, x) <==> (has_name(before, x) || x == t@) by {
                    if has_name(names@, x) {
                        let i = choose|i: int| 0 <= i < names@.len() && (#[trigger] names@[i])@ == x;
                        if i < before.len() {
                            assert(before[i]@ == x);
                        }
                    }
                    if has_name(before, x) {
                        let i = choose|i: int| 0 <= i < before.len() && (#[trigger] before[i])@ == x;
                        assert(names@[i]@ == x);
                    }
                    if x == t@ {
                        assert(names@[names@.len() - 1]@ == x);
                    }
                }
            }
            names.len() - 1
        },
    }
}

/// The entries of `row` are names of `names` in strictly increasing order.
pub open spec fn sorted_by_name(row: Seq<usize>, names: Seq<String>) -> bool {
    &&& forall|a: int| 0 <= a < row.len() ==> (#[trigger] row[a] as int) < names.len()
    &&& forall|a: int, b: int|
        0 <= a < b < row.len() ==> text_lt(names[#[trigger] row[a] as int]@, names[#[trigger] row[b] as int]@)
}

fn insert_sorted(row: &mut Vec<usize>, j: usize, names: &Vec<String>)
    requires
        sorted_by_name(old(row)@, names@),
        names_distinct(names@),
        (j as int) < names@.len(),
    ensures
        sorted_by_name(final(row)@, names@),
        forall|x: usize| #[trigger] final(row)@.contains(x) <==> (old(row)@.contains(x) || x == j),
{
    let nj = chars_of(names[j].as_str());
    let mut p: usize = 0;
    while p < row.len()
        invariant
            sorted_by_name(row@, names@),
            row@ == old(row)@,
            nj@ == names@[j as int]@,
            0 <= p <= row@.len(),
            forall|a: int| 0 <= a < p ==> text_lt(names@[#[trigger] row@[a] as int]@, names@[j as int]@),
        ensures
            sorted_by_name(row@, names@),
            row@ == old(row)@,
            0 <= p <= row@.len(),
            forall|a: int| 0 <= a < p ==> text_lt(names@[#[trigger] row@[a] as int]@, names@[j as int]@),
            p < row@.len() ==> !text_lt(names@[row@[p as int] as int]@, names@[j as int]@),
        decreases row@.len() - p,
    {
        let np = chars_of(names[row[p]].as_str());
        if !text_less(&np, &nj) {
            break;
        }
        p = p + 1;
    }
    let ghost old_row = row@;
    if p < row.len() && row[p] == j {
        return;
    }
    proof {
        if p < old_row.len() {
            assert(!text_lt(names@[old_row[p as int] as int]@, names@[j as int]@));
        }
        assert forall|a: int| p <= a < old_row.len() implies text_lt(names@[j as int]@, names@[#[trigger] old_row[a] as int]@) by {
            let ra = old_row[a] as int;
            let rp = old_row[p as int] as int;
            if a > p {
                assert(text_lt(names@[rp]@, names@[ra]@));
            }
            if ra != j {
                if ra < j as int {
                    assert(names@[ra]@ != names@[j as int]@);
                } else {
                    assert(names@[j as int]@ != names@[ra]@);
                }
                if a == p {
                    lemma_text_lt_total(names@[ra]@, names@[j as int]@);
                } else {
                    if !text_lt(names@[rp]@, names@[j as int]@) && names@[rp]@ != names@[j as int]@ {
                        lemma_text_lt_total(names@[rp]@, names@[j as int]@);
                        lemma_text_lt_transitive(names@[j as int]@, names@[rp]@, names@[ra]@);
                    } else if names@[rp]@ == names@[j as int]@ {
                        if rp < j as int {
                            assert(names@[rp]@ != names@[j as int]@);
                        } else if rp > j as int {
                            assert(names@[j as int]@ != names@[rp]@);
                        }
                    }
                }
            } else {
                if a == p {
                } else {
                    lemma_text_lt_irreflexive(names@[j as int]@);
                    if rp != j as int {
                        if rp < j as int {
                            assert(names@[rp]@ != names@[j as int]@);
                        } else {
                            assert(names@[j as int]@ != names@[rp]@);
                        }
                        lemma_text_lt_total(names@[rp]@, names@[j as int]@);
                        lemma_text_lt_transitive(names@[j as int]@, names@[rp]@, names@[ra]@);
                    }
                }
            }
        }
    }
    row.insert(p, j);
    proof {
        assert forall|a: int| 0 <= a < row@.len() implies (#[trigger] row@[a] as int) < names@.len() by {
            if a < p {
                assert(row@[a] == old_row[a]);
            } else if a > p {
                assert(row@[a] == old_row[a - 1]);
            }
        }
        assert forall|a: int, b: int| 0 <= a < b < row@.len() implies text_lt(
            names@[#[trigger] row@[a] as int]@,
            names@[#[trigger] row@[b] as int]@,
        ) by {
            if b < p {
                assert(row@[a] == old_row[a] && row@[b] == old_row[b]);
            } else if b == p {
                assert(row@[a] == old_row[a]);
            } else if a < p {
                assert(row@[a] == old_row[a] && row@[b] == old_row[b - 1]);
                lemma_text_lt_transitive(names@[old_row[a] as int]@, names@[j as int]@, names@[old_row[b - 1] as int]@);
            } else if a == p {
                assert(row@[b] == old_row[b - 1]);
            } else {
                assert(row@[a] == old_row[a - 1] && row@[b] == old_row[b - 1]);
            }
        }
        assert forall|x: usize| #[trigger] row@.contains(x) <==> (old_row.contains(x) || x == j) by {
            if row@.contains(x) {
                let q = choose|q: int| 0 <= q < row@.len() && row@[q] == x;
                if q < p {
                    assert(old_row[q] == x);
                } else if q > p {
                    assert(old_row[q - 1] == x);
                }
            }
            if old_row.contains(x) {
                let q = choose|q: int| 0 <= q < old_row.len() && old_row[q] == x;
                if q < p {
                    assert(row@[q] == x);
                } else {
                    assert(row@[q + 1] == x);
                }
            }
            if x == j {
                assert(row@[p as int] == x);
            }
        }
    }
}

/// The symbol name of a chunk.
pub open spec fn symbol_of(c: Chunk) -> Option<Seq<char>> {
    opt_text(c.symbol_name)
}

/// Edge `e` leaves a chunk whose symbol name is `s`.
pub open spec fn leaves_symbol(chunks: Seq<Chunk>, e: Edge, s: Seq<char>) -> bool {
    exists|c: int|
        0 <= c < chunks.len() && (#[trigger] chunks[c]).content_hash@ == e.source_hash@ && symbol_of(
            chunks[c],
        ) == Some(s)
}

/// Some edge leaves a chunk named `s` towards the target `t`.
pub open spec fn depends_on_symbol(chunks: Seq<Chunk>, edges: Seq<Edge>, s: Seq<char>, t: Seq<char>) -> bool {
    exists|q: int|
        0 <= q < edges.len() && leaves_symbol(chunks, #[trigger] edges[q], s) && edges[q].target_query@ == t
}

fn leaves_symbol_exec(chunks: &Vec<Chunk>, e: &Edge, s: &str) -> (r: bool)
    ensures
        r == leaves_symbol(chunks@, *e, s@),
{
    let mut c: usize = 0;
    while c < chunks.len()
        invariant
            0 <= c <= chunks@.len(),
            forall|q: int|
                0 <= q < c ==> !((#[trigger] chunks@[q]).content_hash@ == e.source_hash@ && symbol_of(
                    chunks@[q],
                ) == Some(s@)),
        decreases chunks@.len() - c,
    {
        if chunks[c].content_hash == e.source_hash && crate::rollup::option_text_eq(&chunks[c].symbol_name, s) {
            return true;
        }
        c = c + 1;
    }
    false
}

/// `g` is the symbol graph of `chunks` and `edges` with allowlist `allow`.
pub open spec fn is_symbol_graph(g: SymbolGraph, chunks: Seq<Chunk>, edges: Seq<Edge>, allow: Seq<String>) -> bool {
    &&& g.wf()
    &&& names_distinct(g.names@)
    &&& forall|c: int| 0 <= c < chunks.len() ==> (#[trigger] symbol_of(chunks[c]) matches Some(x) ==> has_name(g.names@, x))
    &&& forall|q: int| 0 <= q < edges.len() ==> has_name(g.names@, (#[trigger] edges[q]).target_query@)
    &&& forall|i: int| 0 <= i < g.names@.len() ==> (#[trigger] g.defined@[i] <==> exists|c: int|
        0 <= c < chunks.len() && symbol_of(#[trigger] chunks[c]) == Some(g.names@[i]@))
    &&& forall|i: int| 0 <= i < g.names@.len() ==> #[trigger] g.common@[i] == is_common(g.names@[i]@, allow)
    &&& forall|i: int, x: usize|
        0 <= i < g.names@.len() && (x as int) < g.names@.len() ==> (#[trigger] g.deps@[i]@.contains(x)
            <==> depends_on_symbol(chunks, edges, g.names@[i]@, g.names@[x as int]@))
    &&& forall|i: int| 0 <= i < g.names@.len() ==> sorted_by_name(#[trigger] g.deps@[i]@, g.names@)
}

/// The symbol graph: every chunk symbol and every edge target is a node;
/// the dependencies of a symbol are the targets of the edges that leave its
/// chunks, sorted by name and without repeats.
pub fn build_symbol_graph(chunks: &Vec<Chunk>, edges: &Vec<Edge>, allow: &Vec<String>) -> (g: SymbolGraph)
    ensures
        is_symbol_graph(g, chunks@, edges@, allow@),
{
    let mut names: Vec<String> = Vec::new();
    let mut c: usize = 0;
    while c < chunks.len()
        invariant
            0 <= c <= chunks@.len(),
            names_distinct(names@),
            forall|q: int| 0 <= q < c ==> (#[trigger] symbol_of(chunks@[q]) matches Some(x) ==> has_name(names@, x)),
        decreases chunks@.len() - c,
    {
        match &chunks[c].symbol_name {
            Some(s) => {
                intern(&mut names, s.as_str());
            },
            None => {},
        }
        c = c + 1;
    }
    let mut q: usize = 0;
    while q < edges.len()
        invariant
            0 <= q <= edges@.len(),
            names_distinct(names@),
            forall|r: int| 0 <= r < chunks@.len() ==> (#[trigger] symbol_of(chunks@[r]) matches Some(x) ==> has_name(names@, x)),
            forall|r: int| 0 <= r < q ==> has_name(names@, (#[trigger] edges@[r]).target_query@),
        decreases edges@.len() - q,
    {
        intern(&mut names, edges[q].target_query.as_str());
        q = q + 1;
    }
    let n = names.len();
    let mut deps: Vec<Vec<usize>> = Vec::new();
    let mut defined: Vec<bool> = Vec::new();
    let mut common: Vec<bool> = Vec::new();
    let mut i: usize = 0;
    while i < n
        invariant
            n == names@.len(),
            names_distinct(names@),
            0 <= i <= n,
            deps@.len() == i,
            defined@.len() == i,
            common@.len() == i,
            forall|a: int| 0 <= a < i ==> (#[trigger] defined@[a] <==> exists|c: int|
                0 <= c < chunks@.len() && symbol_of(#[trigger] chunks@[c]) == Some(names@[a]@)),
            forall|a: int| 0 <= a < i ==> #[trigger] common@[a] == is_common(names@[a]@, allow@),
            forall|a: int, x: usize|
                0 <= a < i && (x as int) < n ==> (#[trigger] deps@[a]@.contains(x)
                    <==> depends_on_symbol(chunks@, edges@, names@[a]@, names@[x as int]@)),
            forall|a: int| 0 <= a < i ==> sorted_by_name(#[trigger] deps@[a]@, names@),
            forall|r: int| 0 <= r < edges@.len() ==> has_name(names@, (#[trigger] edges@[r]).target_query@),
        decreases n - i,
    {
        let mut row: Vec<usize> = Vec::new();
        let mut k: usize = 0;
        while k < edges.len()
            invariant
                n == names@.len(),
                names_distinct(names@),
                0 <= i < n,
                0 <= k <= edges@.len(),
                sorted_by_name(row@, names@),
                forall|r: int| 0 <= r < edges@.len() ==> has_name(names@, (#[trigger] edges@[r]).target_query@),
                forall|x: usize| (x as int) < n ==> (#[trigger] row@.contains(x) <==> exists|r: int|
                    0 <= r < k && leaves_symbol(chunks@, #[trigger] edges@[r], names@[i as int]@)
                        && edges@[r].target_query@ == names@[x as int]@),
            decreases edges@.len() - k,
        {
            let e = &edges[k];
            if leaves_symbol_exec(chunks, e, names[i].as_str()) {
                let t = e.target_query.as_str();
                assert(has_name(names@, edges@[k as int].target_query@));
                match name_index(&names, t) {
                    Some(j) => {
                        let ghost before = row@;
                        insert_sorted(&mut row, j, &names);
                        proof {
                            assert forall|x: usize| (x as int) < n implies (#[trigger] row@.contains(x) <==> exists|r: int|
                                0 <= r < k + 1 && leaves_symbol(chunks@, #[trigger] edges@[r], names@[i as int]@)
                                    && edges@[r].target_query@ == names@[x as int]@) by {
                                if x != j && names@[x as int]@ == names@[j as int]@ {
                                    if (x as int) < (j as int) {
                                        assert(names@[x as int]@ != names@[j as int]@);
                                    } else {
                                        assert(names@[j as int]@ != names@[x as int]@);
                                    }
                                }
                                if x == j {
                                    assert(leaves_symbol(chunks@, edges@[k as int], names@[i as int]@));
                                }
                            }
                        }
                    },
                    None => {
                        proof {
                            let w = choose|w: int| 0 <= w < names@.len() && (#[trigger] names@[w])@ == t@;
                            assert(names@[w]@ != t@);
                        }
                    },
                }
            }
            k = k + 1;
        }
        let mut is_def = false;
        let mut c2: usize = 0;
        while c2 < chunks.len()
            invariant
                0 <= c2 <= chunks@.len(),
                0 <= i < n,
                n == names@.len(),
                is_def == exists|c: int| 0 <= c < c2 && symbol_of(#[trigger] chunks@[c]) == Some(names@[i as int]@),
            decreases chunks@.len() - c2,
        {
            if crate::rollup::option_text_eq(&chunks[c2].symbol_name, names[i].as_str()) {
                is_def = true;
            }
            c2 = c2 + 1;
        }
        deps.push(row);
        defined.push(is_def);
        common.push(is_common_symbol(names[i].as_str(), allow));
        i = i + 1;
    }
    let g = SymbolGraph { names, deps, defined, common };
    proof {
        assert forall|a: int, b: int|
            0 <= a < g.deps@.len() && 0 <= b < g.deps@[a]@.len() implies (#[trigger] g.deps@[a]@[b] as int) < g.names@.len() by {
            assert(sorted_by_name(g.deps@[a]@, g.names@));
        }
    }
    g
}

/// The root symbols: defined by some chunk, never the target of an edge,
/// and with outgoing dependencies.
pub open spec fn is_root(g: SymbolGraph, edges: Seq<Edge>, i: int) -> bool {
    &&& g.defined@[i]
    &&& forall|q: int| 0 <= q < edges.len() ==> (#[trigger] edges[q]).target_query@ != g.names@[i]@
    &&& g.deps@[i]@.len() > 0
}

/// The positions of the root symbols, in order.
pub fn root_symbols(g: &SymbolGraph, edges: &Vec<Edge>) -> (r: Vec<usize>)
    requires
        g.wf(),
    ensures
        forall|k: int| 0 <= k < r@.len() ==> (#[trigger] r@[k] as int) < g.names@.len() && is_root(*g, edges@, r@[k] as int),
        forall|i: int| 0 <= i < g.names@.len() && is_root(*g, edges@, i) ==> r@.contains(i as usize),
        forall|a: int, b: int| 0 <= a < b < r@.len() ==> #[trigger] r@[a] < #[trigger] r@[b],
{
    let mut out: Vec<usize> = Vec::new();
    let mut i: usize = 0;
    while i < g.names.len()
        invariant
            g.wf(),
            0 <= i <= g.names@.len(),
            forall|k: int| 0 <= k < out@.len() ==> (#[trigger] out@[k] as int) < i && is_root(*g, edges@, out@[k] as int),
            forall|a: int| 0 <= a < i && is_root(*g, edges@, a) ==> out@.contains(a as usize),
            forall|a: int, b: int| 0 <= a < b < out@.len() ==> #[trigger] out@[a] < #[trigger] out@[b],
        decreases g.names@.len() - i,
    {
        if g.defined[i] && g.deps[i].len() > 0 {
            let mut targeted = false;
            let mut q: usize = 0;
            while q < edges.len()
                invariant
                    0 <= q <= edges@.len(),
                    (i as int) < g.names@.len(),
                    targeted == exists|r: int| 0 <= r < q && (#[trigger] edges@[r]).target_query@ == g.names@[i as int]@,
                decreases edges@.len() - q,
            {
                if text_eq(edges[q].target_query.as_str(), g.names[i].as_str()) {
                    targeted = true;
                }
                q = q + 1;
            }
            if !targeted {
                let ghost before = out@;
                out.push(i);
                proof {
                    assert(out@[out@.len() - 1] == i);
                    assert forall|a: int| 0 <= a < i + 1 && is_root(*g, edges@, a) implies out@.contains(a as usize) by {
                        if a < i {
                            let w = choose|w: int| 0 <= w < before.len() && before[w] == a as usize;
                            assert(out@[w] == a as usize);
                        }
                    }
                }
            } else {
                proof {
                    let r = choose|r: int| 0 <= r < q && (#[trigger] edges@[r]).target_query@ == g.names@[i as int]@;
                    assert(!is_root(*g, edges@, i as int));
                }
            }
        }
        i = i + 1;
    }
    out
}

/// The nodes that the traversals from `roots[i..]`, each at depth 0 and
/// sharing the visited marks, emit.
pub open spec fn walk_roots(
    deps: Seq<Vec<usize>>,
    common: Seq<bool>,
    roots: Seq<usize>,
    i: int,
    max_depth: usize,
    visited: Seq<bool>,
) -> (Seq<TreeNode>, Seq<bool>)
    decreases roots.len() - i,
{
    if i < 0 || i >= roots.len() {
        (Seq::empty(), visited)
    } else {
        let a = walk(deps, common, roots[i], 0, max_depth, visited);
        let b = walk_roots(deps, common, roots, i + 1, max_depth, a.1);
        (a.0 + b.0, b.1)
    }
}

/// The dependency forest: the trees of the given roots in order, at most
/// `max_depth` levels deep, a symbol expanded in one tree not being expanded
/// again in a later one.
pub fn dependency_forest(g: &SymbolGraph, roots: &Vec<usize>, max_depth: usize) -> (r: Vec<TreeNode>)
    requires
        g.wf(),
        forall|k: int| 0 <= k < roots@.len() ==> (#[trigger] roots@[k] as int) < g.names@.len(),
    ensures
        r@ == walk_roots(g.deps@, g.common@, roots@, 0, max_depth, Seq::new(g.names@.len(), |i: int| false)).0,
{
    let n = g.names.len();
    let mut visited: Vec<bool> = Vec::new();
    let mut i: usize = 0;
    while i < n
        invariant
            0 <= i <= n,
            n == g.names@.len(),
            visited@ == Seq::new(i as nat, |k: int| false),
        decreases n - i,
    {
        visited.push(false);
        proof {
            assert(visited@ =~= Seq::new((i + 1) as nat, |k: int| false));
        }
        i = i + 1;
    }
    let ghost v0 = visited@;
    assert(v0 =~= Seq::new(n as nat, |k: int| false));
    let mut out: Vec<TreeNode> = Vec::new();
    let mut k: usize = 0;
    while k < roots.len()
        invariant
            g.wf(),
            forall|q: int| 0 <= q < roots@.len() ==> (#[trigger] roots@[q] as int) < g.names@.len(),
            0 <= k <= roots@.len(),
            visited@.len() == g.names@.len(),
            ({
                let all = walk_roots(g.deps@, g.common@, roots@, 0, max_depth, v0);
                let rest = walk_roots(g.deps@, g.common@, roots@, k as int, max_depth, visited@);
                all.0 == out@ + rest.0 && all.1 == rest.1
            }),
        decreases roots@.len() - k,
    {
        let ghost vb = visited@;
        let ghost ob = out@;
        let s = roots[k];
        walk_exec(g, s, 0, max_depth, &mut visited, &mut out);
        proof {
            assert(deps_below(g.deps@, vb.len() as int));
            lemma_walk_len(g.deps@, g.common@, s, 0, max_depth, vb);
            let a = walk(g.deps@, g.common@, s, 0, max_depth, vb);
            let rest = walk_roots(g.deps@, g.common@, roots@, k as int + 1, max_depth, a.1);
            assert(out@ == ob + a.0);
            assert(ob + (a.0 + rest.0) =~= out@ + rest.0);
        }
        k = k + 1;
    }
    assert(out@ =~= out@ + Seq::<TreeNode>::empty());
    out
}

} // verus!
