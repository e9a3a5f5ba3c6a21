//! The module graph answer of the service: for each selected module, its
//! dependencies at module or crate level.
use crate::chunk::{Chunk, Edge, EdgeKind, Module, ProjectType};
use crate::project::copy_module;
use crate::rollup::{
    order_by_count, ordered_by_count, crate_dependencies, crate_deps_prefix, details_upto, details_view, edge_details,
    module_dependencies, module_deps_prefix, module_index_from,
};
use vstd::prelude::*;

verus! {

/// One chunk-level edge behind a module dependency.
#[derive(Clone, Debug)]
pub struct ModuleEdgeDetail {
    pub source_symbol: String,
    pub target_symbol: String,
    pub line_number: Option<usize>,
    pub kind: EdgeKind,
}

/// A dependency of a module on another.
#[derive(Clone, Debug)]
pub struct ModuleDependency {
    pub target_id: String,
    pub target_name: String,
    pub count: usize,
    pub edges: Option<Vec<ModuleEdgeDetail>>,
}

/// A module with its dependencies.
#[derive(Clone, Debug)]
pub struct ModuleResponse {
    pub module: Module,
    pub dependencies: Vec<ModuleDependency>,
}

/// The neighbours of a symbol: its outgoing edge targets, and the symbols
/// of the chunks nearest to it by embedding.
#[derive(Clone, Debug)]
pub struct RelatedResponse {
    pub graph_neighbors: Vec<String>,
    pub semantic_relatives: Vec<String>,
}

/// The modules to describe, before the crate-level filter: all modules, or
/// the first module of each requested identifier that exists, in request order.
pub open spec fn requested_prefix(modules: Seq<Module>, ids: Seq<String>, k: int) -> Seq<Module>
    decreases k,
{
    if k <= 0 {
        Seq::empty()
    } else {
        let rest = requested_prefix(modules, ids, k - 1);
        match module_index_from(modules, ids[k - 1]@, 0) {
            Some(i) => rest.push(modules[i]),
            None => rest,
        }
    }
}

/// The modules of `ms` that are not plain directories, where `crate_level` asks so.
pub open spec fn level_prefix(ms: Seq<Module>, crate_level: bool, k: int) -> Seq<Module>
    decreases k,
{
    if k <= 0 {
        Seq::empty()
    } else {
        let rest = level_prefix(ms, crate_level, k - 1);
        if crate_level && ms[k - 1].project_type == ProjectType::Directory {
            rest
        } else {
            rest.push(ms[k - 1])
        }
    }
}

/// The modules that a module-graph request describes.
pub open spec fn selected_modules(modules: Seq<Module>, filter: Option<Seq<String>>, crate_level: bool) -> Seq<Module> {
    let base = match filter {
        Some(ids) => requested_prefix(modules, ids, ids.len() as int),
        None => modules,
    };
    level_prefix(base, crate_level, base.len() as int)
}

fn find_module(modules: &Vec<Module>, id: &str) -> (r: Option<usize>)
    ensures
        module_index_from(modules@, id@, 0) == match r {
            Some(k) => Some(k as int),
            None => None::<int>,
        },
        r matches Some(k) ==> k < modules@.len(),
{
    let mut k: usize = 0;
    while k < modules.len()
        invariant
            0 <= k <= modules@.len(),
            module_index_from(modules@, id@, 0) == module_index_from(modules@, id@, k as int),
        decreases modules@.len() - k,
    {
        if crate::text::text_eq(modules[k].id.as_str(), id) {
            return Some(k);
        }
        k = k + 1;
    }
    None
}

/// The modules that a module-graph request describes.
pub fn select_modules(modules: &Vec<Module>, filter: &Option<Vec<String>>, crate_level: bool) -> (r: Vec<Module>)
    ensures
        r@ == selected_modules(
            modules@,
            match filter {
                Some(ids) => Some(ids@),
                None => None,
            },
            crate_level,
        ),
{
    let base: Vec<Module> = match filter {
        Some(ids) => {
            let mut b: Vec<Module> = Vec::new();
            let mut k: usize = 0;
            while k < ids.len()
                invariant
                    0 <= k <= ids@.len(),
                    b@ == requested_prefix(modules@, ids@, k as int),
                decreases ids@.len() - k,
            {
                match find_module(modules, ids[k].as_str()) {
                    Some(i) => {
                        b.push(copy_module(&modules[i]));
                    },
                    None => {},
                }
                k = k + 1;
            }
            b
        },
        None => crate::project::copy_modules(modules),
    };
    let mut out: Vec<Module> = Vec::new();
    let mut k: usize = 0;
    while k < base.len()
        invariant
            0 <= k <= base@.len(),
            out@ == level_prefix(base@, crate_level, k as int),
        decreases base@.len() - k,
    {
        if !(crate_level && base[k].project_type == ProjectType::Directory) {
            out.push(copy_module(&base[k]));
        }
        k = k + 1;
    }
    out
}

/// The view of module dependencies: target identifier and count.
pub open spec fn dependency_view(d: Seq<ModuleDependency>) -> Seq<(Seq<char>, int)> {
    Seq::new(d.len(), |i: int| (d[i].target_id@, d[i].count as int))
}

/// The module graph: for each selected module, its dependencies (crate level:
/// on other crates, directories rolled up into their crate; module level: on
/// other modules), highest count first and equal counts in module order, with
/// the target's name and, where asked, the chunk-level edges behind each
/// dependency.
pub fn module_graph(
    modules: &Vec<Module>,
    chunks: &Vec<Chunk>,
    edges: &Vec<Edge>,
    filter: &Option<Vec<String>>,
    crate_level: bool,
    include_edges: bool,
) -> (r: Vec<ModuleResponse>)
    requires
        edges@.len() * (chunks@.len() + modules@.len()) <= usize::MAX,
    ensures
        ({
            let sel = selected_modules(
                modules@,
                match filter {
                    Some(ids) => Some(ids@),
                    None => None,
                },
                crate_level,
            );
            &&& r@.len() == sel.len()
            &&& forall|k: int| 0 <= k < r@.len() ==> (#[trigger] r@[k]).module == sel[k]
            &&& forall|k: int|
                0 <= k < r@.len() ==> ordered_by_count(dependency_view((#[trigger] r@[k]).dependencies@), if crate_level {
                    crate_deps_prefix(modules@, chunks@, edges@, sel[k].id@, modules@.len() as int)
                } else {
                    module_deps_prefix(modules@, chunks@, edges@, sel[k].id@, modules@.len() as int)
                })
            &&& forall|k: int, q: int|
                0 <= k < r@.len() && 0 <= q < r@[k].dependencies@.len() ==> if include_edges {
                    (#[trigger] r@[k].dependencies@[q]).edges matches Some(d) && details_view(d@)
                        == details_upto(modules@, chunks@, edges@, sel[k].id@, r@[k].dependencies@[q].target_id@, edges@.len() as int)
                } else {
                    r@[k].dependencies@[q].edges is None
                }
        }),
{
    let sel = select_modules(modules, filter, crate_level);
    assert(edges@.len() * chunks@.len() <= edges@.len() * (chunks@.len() + modules@.len()))
        by (nonlinear_arith);
    let mut out: Vec<ModuleResponse> = Vec::new();
    let mut k: usize = 0;
    while k < sel.len()
        invariant
            0 <= k <= sel@.len(),
            edges@.len() * (chunks@.len() + modules@.len()) <= usize::MAX,
            edges@.len() * chunks@.len() <= usize::MAX,
            out@.len() == k,
            forall|q: int| 0 <= q < k ==> (#[trigger] out@[q]).module == sel@[q],
            forall|q: int|
                0 <= q < k ==> ordered_by_count(dependency_view((#[trigger] out@[q]).dependencies@), if crate_level {
                    crate_deps_prefix(modules@, chunks@, edges@, sel@[q].id@, modules@.len() as int)
                } else {
                    module_deps_prefix(modules@, chunks@, edges@, sel@[q].id@, modules@.len() as int)
                }),
            forall|a: int, q: int|
                0 <= a < k && 0 <= q < out@[a].dependencies@.len() ==> if include_edges {
                    (#[trigger] out@[a].dependencies@[q]).edges matches Some(d) && details_view(d@)
                        == details_upto(modules@, chunks@, edges@, sel@[a].id@, out@[a].dependencies@[q].target_id@, edges@.len() as int)
                } else {
                    out@[a].dependencies@[q].edges is None
                },
        decreases sel@.len() - k,
    {
        let m = &sel[k];
        let listed = if crate_level {
            crate_dependencies(modules, chunks, edges, m.id.as_str())
        } else {
            module_dependencies(modules, chunks, edges, m.id.as_str())
        };
        let raw = order_by_count(&listed);
        let mut deps: Vec<ModuleDependency> = Vec::new();
        let mut j: usize = 0;
        while j < raw.len()
            invariant
                0 <= j <= raw@.len(),
                deps@.len() == j,
                forall|q: int| 0 <= q < j ==> (#[trigger] deps@[q]).target_id@ == raw@[q].0@ && deps@[q].count == raw@[q].1,
                forall|q: int|
                    0 <= q < j ==> if include_edges {
                        (#[trigger] deps@[q]).edges matches Some(d) && details_view(d@)
                            == details_upto(modules@, chunks@, edges@, m.id@, deps@[q].target_id@, edges@.len() as int)
                    } else {
                        deps@[q].edges is None
                    },
            decreases raw@.len() - j,
        {
            let target_name = match find_module(modules, raw[j].0.as_str()) {
                Some(i) => modules[i].name.clone(),
                None => raw[j].0.clone(),
            };
            let details = if include_edges {
                Some(edge_details(modules, chunks, edges, m.id.as_str(), raw[j].0.as_str()))
            } else {
                None
            };
            deps.push(ModuleDependency {
                target_id: raw[j].0.clone(),
                target_name,
                count: raw[j].1,
                edges: details,
            });
            j = j + 1;
        }
        proof {
            assert(dependency_view(deps@) =~= crate::rollup::deps_view(raw@));
        }
        let ghost old_out = out@;
        out.push(ModuleResponse { module: copy_module(m), dependencies: deps });
        proof {
            assert forall|a: int, q: int|
                0 <= a < k + 1 && 0 <= q < out@[a].dependencies@.len() implies if include_edges {
                    (#[trigger] out@[a].dependencies@[q]).edges matches Some(d) && details_view(d@)
                        == details_upto(modules@, chunks@, edges@, sel@[a].id@, out@[a].dependencies@[q].target_id@, edges@.len() as int)
                } else {
                    out@[a].dependencies@[q].edges is None
                } by {
                if a < k {
                    assert(out@[a] == old_out[a]);
                }
            }
        }
        k = k + 1;
    }
    out
}

} // verus!
