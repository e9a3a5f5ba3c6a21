use codemate::chunk::{count_lines, path_id};
use codemate::cycles::find_cycles;
use codemate::filter::{candidate_set, hybrid_rank};
use codemate::fusion::reciprocal_rank_fusion;
use codemate::pipeline::{embedding_text, is_code_file, is_hidden, is_ignored, ChunkExtractor};
use codemate::project::{
    detect_project, extract_go_module, extract_json_value, extract_toml_value,
    module_id_for_path, should_skip_dir,
};
use codemate::query::{filter_key, parse_limit, FilterKey};
use codemate::rollup::{
    count_module_edges, crate_dependencies, crate_of_module, find_module_cycles,
    module_dependencies,
};
use codemate::service::module_graph;
use codemate::traversal::{
    build_symbol_graph, dependency_forest, dependency_tree, is_common_symbol, root_symbols,
    SymbolGraph, TreeNode,
};
use codemate::{
    Chunk, ChunkKind, ContentHash, DirInfo, Edge, EdgeKind, Embedding, FileBatch,
    HashParseError, IndexStore, Language, Module, ProjectDetector, ProjectType, SearchQuery,
};

fn rust_function(name: &str, body: &str) -> Chunk {
    let content = format!("fn {}() {{\n    {}\n}}", name, body);
    Chunk::new(content, Language::Rust, ChunkKind::Function, Some(name.to_string()))
}

fn rust_struct(name: &str, fields: &[(&str, &str)]) -> Chunk {
    let field_strs: Vec<String> = fields.iter().map(|(n, t)| format!("    {}: {},", n, t)).collect();
    let content = format!("pub struct {} {{\n{}\n}}", name, field_strs.join("\n"));
    Chunk::new(content, Language::Rust, ChunkKind::Struct, Some(name.to_string()))
}

fn fixture_embedding(dimensions: usize, model_id: &str) -> Embedding {
    let vector: Vec<u32> = (0..dimensions)
        .map(|i| (i as f32 / dimensions as f32).to_bits())
        .collect();
    Embedding::new(vector, model_id.to_string())
}

fn dir(path: &str, name: Option<&str>, parent: Option<&str>, entries: &[&str]) -> DirInfo {
    DirInfo {
        path: path.to_string(),
        name: name.map(|n| n.to_string()),
        parent_path: parent.map(|p| p.to_string()),
        entries: entries.iter().map(|e| e.to_string()).collect(),
        cargo_toml: None,
        package_json: None,
        go_mod: None,
    }
}

fn module(id: &str, name: &str, t: ProjectType, parent: Option<&str>) -> Module {
    let mut m = Module::new(name.to_string(), id.to_string(), Language::Rust, t);
    m.parent_id = parent.map(|p| p.to_string());
    m
}

fn chunk_in(content: &str, symbol: Option<&str>, module_id: &str) -> Chunk {
    Chunk::new(content.to_string(), Language::Rust, ChunkKind::Function, symbol.map(|s| s.to_string()))
        .with_module_id(module_id.to_string())
}

#[test]
fn chunk_test_language_detection() {
    assert_eq!(Language::from_extension("rs"), Language::Rust);
    assert_eq!(Language::from_extension("py"), Language::Python);
    assert_eq!(Language::from_extension("ts"), Language::TypeScript);
    assert_eq!(Language::from_extension("xyz"), Language::Unknown);
}

#[test]
fn extractor_test_language_detection() {
    assert_eq!(Language::from_extension("rs"), Language::Rust);
    assert_eq!(Language::from_extension("py"), Language::Python);
    assert_eq!(Language::from_extension("ts"), Language::TypeScript);
    assert_eq!(Language::from_extension("go"), Language::Go);
    assert_eq!(Language::from_extension("tf"), Language::Hcl);
    assert_eq!(Language::from_extension("tfvars"), Language::Hcl);
}

#[test]
fn language_detection_ignores_case() {
    assert_eq!(Language::from_str("RS"), Language::Rust);
    assert_eq!(Language::from_str("Python"), Language::Python);
    assert_eq!(Language::from_lowercase("RS"), Language::Unknown);
    assert_eq!(Language::Hcl.as_str(), "hcl");
}

#[test]
fn test_chunk_creation() {
    let chunk = Chunk::new(
        "fn main() {}".to_string(),
        Language::Rust,
        ChunkKind::Function,
        Some("main".to_string()),
    );
    assert_eq!(chunk.symbol_name, Some("main".to_string()));
    assert_eq!(chunk.language, Language::Rust);
    assert_eq!(chunk.kind, ChunkKind::Function);
    assert_eq!(chunk.byte_size, 12);
}

#[test]
fn chunk_counts_lines_and_bytes() {
    let chunk = Chunk::new("a\nb\n".to_string(), Language::Rust, ChunkKind::Block, None);
    assert_eq!(chunk.line_count, 2);
    assert_eq!(chunk.byte_size, 4);
    assert_eq!(count_lines(""), 0);
    assert_eq!(count_lines("x"), 1);
    assert_eq!(count_lines("x\n\ny"), 3);
    let wide = Chunk::new("é".to_string(), Language::Rust, ChunkKind::Block, None);
    assert_eq!(wide.byte_size, 2);
    let c = chunk.with_line_range(3, 7).with_signature("sig".to_string()).with_docstring("doc".to_string());
    assert_eq!((c.line_start, c.line_end), (3, 7));
    assert_eq!(c.signature, Some("sig".to_string()));
    assert_eq!(c.docstring, Some("doc".to_string()));
}

#[test]
fn test_content_hash() {
    let content = b"fn main() { println!(\"Hello, world!\"); }";
    let hash = ContentHash::from_content(content);
    let hash2 = ContentHash::from_content(content);
    assert_eq!(hash, hash2);
    let hash3 = ContentHash::from_content(b"fn other() {}");
    assert_ne!(hash, hash3);
}

#[test]
fn test_hex_roundtrip() {
    let content = b"test content";
    let hash = ContentHash::from_content(content);
    let hex = hash.to_hex();
    let parsed = ContentHash::from_hex(&hex).unwrap();
    assert_eq!(hash, parsed);
}

#[test]
fn content_hash_known_digest() {
    let hash = ContentHash::from_content(b"");
    assert_eq!(
        hash.to_hex(),
        "e3b0c44298fc1c149afbf4c8996fb92427ae41e4649b934ca495991b7852b855"
    );
    assert_eq!(hash.as_bytes()[0], 0xe3);
    let upper = ContentHash::from_hex(
        "E3B0C44298FC1C149AFBF4C8996FB92427AE41E4649B934CA495991B7852B855",
    );
    assert_eq!(upper, Ok(hash));
    assert_eq!(ContentHash::from_bytes([7u8; 32]).to_hex(), "07".repeat(32));
}

#[test]
fn content_hash_parse_errors() {
    assert_eq!(ContentHash::from_hex("zz"), Err(HashParseError::NotHex));
    assert_eq!(ContentHash::from_hex("abc"), Err(HashParseError::NotHex));
    assert_eq!(ContentHash::from_hex("abcd"), Err(HashParseError::WrongLength));
}

#[test]
fn test_parse_simple_query() {
    let q = SearchQuery::parse("indexing engine");
    assert_eq!(q.raw_query, "indexing engine");
    assert_eq!(q.author, None);
}

#[test]
fn test_parse_with_filters() {
    let q = SearchQuery::parse("storage author:Stanley lang:rust limit:5");
    assert_eq!(q.raw_query, "storage");
    assert_eq!(q.author, Some("Stanley".to_string()));
    assert_eq!(q.lang, Some(Language::Rust));
    assert_eq!(q.limit, 5);
}

#[test]
fn test_parse_with_unsupported_filter() {
    let q = SearchQuery::parse("parser unknown:value");
    assert_eq!(q.raw_query, "parser unknown:value");
}

#[test]
fn query_dates_paths_and_defaults() {
    let q = SearchQuery::parse("  find   AUTHOR:bob after:2024-01-01T00:00:00+01:00 before:junk path:src/ ");
    assert_eq!(q.raw_query, "find");
    assert_eq!(q.author, Some("bob".to_string()));
    let after = q.after.unwrap();
    assert_eq!((after.seconds, after.nanos), (1704063600, 0));
    assert_eq!(q.before, None);
    assert_eq!(q.file_pattern, Some("src/".to_string()));
    assert_eq!(q.limit, 10);
    let z = SearchQuery::parse("x limit:0 lang:PY");
    assert_eq!(z.limit, 10);
    assert_eq!(z.lang, Some(Language::Python));
    assert_eq!(z.raw_query, "x");
}

#[test]
fn limits_parse_as_positive_integers() {
    let v = |s: &str| s.chars().collect::<Vec<char>>();
    assert_eq!(parse_limit(&v("42")), Some(42));
    assert_eq!(parse_limit(&v("+7")), Some(7));
    assert_eq!(parse_limit(&v("0")), None);
    assert_eq!(parse_limit(&v("-1")), None);
    assert_eq!(parse_limit(&v("")), None);
    assert_eq!(parse_limit(&v("99999999999999999999999")), None);
}

#[test]
fn test_rust_function_fixture() {
    let chunk = rust_function("hello", "println!(\"Hello!\");");
    assert_eq!(chunk.symbol_name, Some("hello".to_string()));
    assert_eq!(chunk.language, Language::Rust);
    assert_eq!(chunk.kind, ChunkKind::Function);
    assert!(chunk.content.contains("fn hello()"));
}

#[test]
fn test_rust_struct_fixture() {
    let chunk = rust_struct("User", &[("name", "String"), ("age", "u32")]);
    assert_eq!(chunk.symbol_name, Some("User".to_string()));
    assert!(chunk.content.contains("name: String"));
    assert!(chunk.content.contains("age: u32"));
}

#[test]
fn test_embedding_fixture() {
    let emb = fixture_embedding(384, "test-model");
    assert_eq!(emb.dimensions, 384);
    assert_eq!(emb.model_id, "test-model");
}

#[test]
fn embedding_blob_codec() {
    let e = Embedding::new(vec![1.0f32.to_bits(), 0.5f32.to_bits(), 0x0102_0304], "m".to_string());
    let blob = e.to_blob();
    assert_eq!(blob.len(), 4 * e.dimensions);
    assert_eq!(&blob[0..4], &1.0f32.to_le_bytes());
    assert_eq!(&blob[8..12], &[4, 3, 2, 1]);
    let back = Embedding::from_blob(&blob, "m".to_string()).unwrap();
    assert_eq!(back.vector, e.vector);
    assert_eq!(back.dimensions, 3);
    assert!(Embedding::from_blob(&vec![1, 2, 3], "m".to_string()).is_none());
}

#[test]
fn test_detect_rust_crate() {
    let mut root = dir("", Some("tmp"), None, &["my_crate"]);
    root.entries = vec!["my_crate".to_string()];
    let mut krate = dir("my_crate", Some("my_crate"), Some(""), &["Cargo.toml"]);
    krate.cargo_toml = Some("\n[package]\nname = \"my_crate\"\nversion = \"0.1.0\"\n".to_string());
    let mut detector = ProjectDetector::new("/tmp/x");
    let modules = detector.detect_modules(&vec![root, krate]);
    assert_eq!(modules.len(), 2);
    assert_eq!(modules[0].id, "root");
    assert_eq!(modules[0].project_type, ProjectType::Directory);
    assert_eq!(modules[1].name, "my_crate");
    assert_eq!(modules[1].project_type, ProjectType::Crate);
    assert_eq!(modules[1].language, Language::Rust);
    assert_eq!(modules[1].parent_id, Some("root".to_string()));
}

#[test]
fn test_detect_rust_workspace() {
    let mut root = dir("", Some("tmp"), None, &["Cargo.toml"]);
    root.cargo_toml = Some("\n[workspace]\nmembers = [\"crates/*\"]\n".to_string());
    let mut detector = ProjectDetector::new("/tmp/x");
    let modules = detector.detect_modules(&vec![root]);
    assert_eq!(modules.len(), 1);
    assert_eq!(modules[0].project_type, ProjectType::Workspace);
}

#[test]
fn test_detect_node_project() {
    let mut root = dir("", Some("tmp"), None, &["package.json"]);
    root.package_json = Some("\n{\n  \"name\": \"my-app\",\n  \"version\": \"1.0.0\"\n}\n".to_string());
    let mut detector = ProjectDetector::new("/tmp/x");
    let modules = detector.detect_modules(&vec![root]);
    assert_eq!(modules.len(), 1);
    assert_eq!(modules[0].name, "my-app");
    assert_eq!(modules[0].project_type, ProjectType::NpmPackage);
}

#[test]
fn test_find_module_for_file() {
    let root = dir("", Some("tmp"), None, &["crates"]);
    let crates = dir("crates", Some("crates"), Some(""), &["my_crate"]);
    let mut krate = dir("crates/my_crate", Some("my_crate"), Some("crates"), &["Cargo.toml", "src"]);
    krate.cargo_toml = Some("\n[package]\nname = \"my_crate\"\n".to_string());
    let src = dir("crates/my_crate/src", Some("src"), Some("crates/my_crate"), &["lib.rs"]);
    let mut detector = ProjectDetector::new("/tmp/x");
    detector.detect_modules(&vec![root, crates, krate, src]);
    let module_id = detector.get_module_id_for_file("/tmp/x/crates/my_crate/src/lib.rs");
    assert!(module_id.is_some());
    assert!(module_id.unwrap().contains("my_crate"));
    assert_eq!(detector.get_module_id_for_file("/elsewhere/a.rs"), None);
    let m = detector.find_module_for_file("/tmp/x/crates/other.rs").unwrap();
    assert_eq!(m.id, "crates");
}

#[test]
fn project_markers_in_order() {
    let mut py = dir("svc", Some("svc"), Some(""), &["setup.py", "main.tf"]);
    py.go_mod = None;
    let m = detect_project(&py);
    assert_eq!((m.language, m.project_type), (Language::Python, ProjectType::Package));
    let tf = dir("infra/net", Some("net"), Some("infra"), &["main.tf"]);
    let m = detect_project(&tf);
    assert_eq!(m.project_type, ProjectType::TerraformModule);
    assert_eq!(m.id, "infra::net");
    assert_eq!(m.parent_id, Some("infra".to_string()));
    let mut go = dir("g", Some("g"), None, &["go.mod"]);
    go.go_mod = Some("module   github.com/x/y  \ngo 1.21\n".to_string());
    let m = detect_project(&go);
    assert_eq!((m.name.as_str(), m.project_type), ("github.com/x/y", ProjectType::GoModule));
    let mut ts = dir("web", Some("web"), None, &["package.json", "tsconfig.json"]);
    ts.package_json = Some("{}".to_string());
    let m = detect_project(&ts);
    assert_eq!((m.name.as_str(), m.language), ("web", Language::TypeScript));
    let plain = dir("docs", None, None, &[".tf", "README"]);
    let m = detect_project(&plain);
    assert_eq!((m.name.as_str(), m.project_type), ("dir", ProjectType::Directory));
}

#[test]
fn marker_file_scans() {
    assert_eq!(extract_toml_value("x = 1\n  name= \"a\"\nname = \"b\"", "name"), Some("a".to_string()));
    assert_eq!(extract_toml_value("name = 3\n", "name"), None);
    assert_eq!(extract_json_value("{\n \"name\" : \"n\" }", "name"), Some("n".to_string()));
    assert_eq!(extract_go_module("// c\nmodule module x\r\n"), Some("x".to_string()));
    assert!(should_skip_dir(".cache"));
    assert!(should_skip_dir("node_modules"));
    assert!(!should_skip_dir("."));
    assert!(!should_skip_dir("src"));
}

#[test]
fn module_ids_follow_paths() {
    assert_eq!(module_id_for_path(""), "root");
    assert_eq!(module_id_for_path("a/b\\c"), "a::b::c");
    assert_eq!(path_id("x/y"), "x::y");
    assert_ne!(module_id_for_path("a/b"), module_id_for_path("a_b"));
    let m = Module::new("n".to_string(), "p/q".to_string(), Language::Go, ProjectType::GoModule)
        .with_parent("p".to_string());
    assert_eq!(m.id, "p::q");
    assert_eq!(m.parent_id, Some("p".to_string()));
}

#[test]
fn pipeline_filters_and_text() {
    assert!(is_code_file("rs"));
    assert!(is_code_file("mjs"));
    assert!(!is_code_file("md"));
    assert!(is_hidden(".git"));
    assert!(!is_hidden(".."));
    assert!(is_ignored("target"));
    assert!(!is_ignored("src"));
    let c = Chunk::new("body".to_string(), Language::Rust, ChunkKind::Function, Some("f".to_string()))
        .with_docstring("does".to_string());
    assert_eq!(embedding_text(&c), "f does\nbody");
    let (chunks, edges) = ChunkExtractor::new().with_max_lines(5).extract_fallback("a\nb", Language::Unknown);
    assert_eq!(chunks.len(), 1);
    assert_eq!(chunks[0].kind, ChunkKind::Block);
    assert_eq!(chunks[0].line_count, 2);
    assert!(edges.is_empty());
}

#[test]
fn cycle_between_two_symbols() {
    let g = SymbolGraph {
        names: vec!["A".to_string(), "B".to_string()],
        deps: vec![vec![1], vec![0]],
        defined: vec![true, true],
        common: vec![false, false],
    };
    let tree = dependency_tree(&g, 0, 5);
    assert_eq!(
        tree,
        vec![
            TreeNode { symbol: 0, depth: 0, repeated: false, cycle: false },
            TreeNode { symbol: 1, depth: 1, repeated: false, cycle: false },
            TreeNode { symbol: 0, depth: 2, repeated: true, cycle: true },
        ]
    );
    let common = SymbolGraph { common: vec![true, false], ..g.clone() };
    assert_eq!(dependency_tree(&common, 0, 5)[2].cycle, false);
}

#[test]
fn tree_at_depth_zero_is_the_symbol() {
    let g = SymbolGraph {
        names: vec!["A".to_string(), "B".to_string(), "C".to_string()],
        deps: vec![vec![1, 2], vec![2], vec![]],
        defined: vec![true, true, true],
        common: vec![false, false, false],
    };
    assert_eq!(
        dependency_tree(&g, 0, 0),
        vec![TreeNode { symbol: 0, depth: 0, repeated: false, cycle: false }]
    );
    let full = dependency_tree(&g, 0, usize::MAX);
    let order: Vec<(usize, usize, bool)> = full.iter().map(|n| (n.symbol, n.depth, n.repeated)).collect();
    assert_eq!(order, vec![(0, 0, false), (1, 1, false), (2, 2, false), (2, 1, true)]);
}

#[test]
fn graph_cycles_close_on_themselves() {
    let adj = vec![vec![1], vec![2], vec![0], vec![]];
    let cycles = find_cycles(&adj);
    assert_eq!(cycles, vec![vec![0, 1, 2, 0]]);
    assert!(find_cycles(&vec![vec![1], vec![], vec![1]]).is_empty());
}

fn h(s: &str) -> ContentHash {
    ContentHash::from_content(s.as_bytes())
}

#[test]
fn fusion_prefers_both_lists() {
    let (a, b, c) = (h("alpha"), h("beta"), h("gamma"));
    let out = reciprocal_rank_fusion(&vec![a, b, c], &vec![b], 10);
    assert_eq!(out.len(), 3);
    assert_eq!(out[0].hash, b);
    assert_eq!((out[0].vector_rank, out[0].lexical_rank), (Some(2), Some(1)));
    assert_eq!(out[1].hash, a);
    assert_eq!(out[2].hash, c);
    let top = reciprocal_rank_fusion(&vec![a, b, c], &vec![b], 1);
    assert_eq!(top.len(), 1);
    assert_eq!(top[0].hash, b);
}

#[test]
fn fusion_of_identical_lists_keeps_rank_order() {
    let (a, b) = (h("one"), h("two"));
    let out = reciprocal_rank_fusion(&vec![a, b], &vec![a, b], 5);
    assert_eq!(out.len(), 2);
    assert_eq!(out[0].hash, a);
    assert_eq!((out[0].vector_rank, out[0].lexical_rank), (Some(1), Some(1)));
    assert_eq!((out[1].vector_rank, out[1].lexical_rank), (Some(2), Some(2)));
}

#[test]
fn fusion_breaks_ties_by_hash() {
    let (a, b) = (h("x"), h("y"));
    let out = reciprocal_rank_fusion(&vec![a], &vec![b], 5);
    assert_eq!(out.len(), 2);
    let (lo, hi) = if a.to_hex() < b.to_hex() { (a, b) } else { (b, a) };
    assert_eq!(out[0].hash, lo);
    assert_eq!(out[1].hash, hi);
}

#[test]
fn module_rollup_counts_and_cycles() {
    let modules = vec![
        module("m1", "m1", ProjectType::Crate, None),
        module("m2", "m2", ProjectType::Crate, None),
        module("m3", "m3", ProjectType::Crate, None),
    ];
    let c1 = chunk_in("fn a() {}", Some("a"), "m1");
    let c2 = chunk_in("fn b() {}", Some("b"), "m2");
    let c3 = chunk_in("fn c() {}", Some("c"), "m3");
    let edges = vec![
        Edge::new(c1.content_hash, "b".to_string(), EdgeKind::Calls),
        Edge::new(c2.content_hash, "c::inner".to_string(), EdgeKind::Calls),
        Edge::new(c3.content_hash, "a".to_string(), EdgeKind::Calls),
        Edge::new(c1.content_hash, "a".to_string(), EdgeKind::Calls),
    ];
    let chunks = vec![c1, c2, c3];
    assert_eq!(count_module_edges(&modules, &chunks, &edges, "m1", "m2"), 1);
    assert_eq!(count_module_edges(&modules, &chunks, &edges, "m1", "m1"), 0);
    assert_eq!(module_dependencies(&modules, &chunks, &edges, "m2"), vec![("m3".to_string(), 1)]);
    let cycles = find_module_cycles(&modules, &chunks, &edges);
    assert_eq!(cycles.len(), 1);
    assert_eq!(cycles[0], vec!["m1".to_string(), "m2".to_string(), "m3".to_string(), "m1".to_string()]);
    assert!(find_module_cycles(&modules, &chunks, &edges[..2].to_vec()).is_empty());
}

#[test]
fn crate_rollup_direct_and_by_name() {
    let modules = vec![
        module("m1", "m1", ProjectType::Crate, None),
        module("m2", "m2", ProjectType::Crate, None),
        module("m2::src", "src", ProjectType::Directory, Some("m2")),
        module("my-lib", "my-lib", ProjectType::Crate, None),
    ];
    let c1 = chunk_in("fn foo() {}", Some("foo"), "m1");
    let c2 = chunk_in("fn bar() {}", Some("bar"), "m2::src");
    let edges = vec![
        Edge::new(c2.content_hash, "foo".to_string(), EdgeKind::Calls),
        Edge::new(c2.content_hash, "my_lib::thing".to_string(), EdgeKind::Imports),
    ];
    let chunks = vec![c1, c2];
    assert_eq!(crate_of_module(&modules, "m2::src"), Some("m2".to_string()));
    assert_eq!(
        crate_dependencies(&modules, &chunks, &edges, "m2"),
        vec![("m1".to_string(), 1), ("my-lib".to_string(), 1)]
    );
    assert!(crate_dependencies(&modules, &chunks, &edges, "m1").is_empty());
}

#[test]
fn test_chunk_store() {
    let mut store = IndexStore::new();
    let chunk = Chunk::new("fn main() {}".to_string(), Language::Rust, ChunkKind::Function, Some("main".to_string()));
    let hash = chunk.content_hash;
    store.put_chunk(chunk.clone());
    let retrieved = store.get_chunk(&hash).unwrap();
    assert_eq!(retrieved.content, chunk.content);
    assert_eq!(retrieved.symbol_name, chunk.symbol_name);
}

#[test]
fn test_vector_store() {
    let mut store = IndexStore::new();
    let hash = ContentHash::from_content(b"test");
    let embedding = Embedding::new(vec![1.0f32.to_bits(), 0.5f32.to_bits(), 0.0f32.to_bits()], "test-model".to_string());
    store.put_embedding(hash, embedding.clone());
    let retrieved = store.get_embedding(&hash).unwrap();
    assert_eq!(retrieved.vector, embedding.vector);
    assert_eq!(retrieved.model_id, embedding.model_id);
}

#[test]
fn test_graph_store() {
    let mut store = IndexStore::new();
    let hash1 = ContentHash::from_content(b"test1");
    let chunk = Chunk::new("test1".to_string(), Language::Rust, ChunkKind::Function, None);
    store.put_chunk(chunk);
    let edge1 = Edge::new(hash1, "FuncA".to_string(), EdgeKind::Calls).with_line(10);
    let edge2 = Edge::new(hash1, "FuncB".to_string(), EdgeKind::Calls).with_line(20);
    store.add_edges(&vec![edge1, edge2]);
    let outgoing = store.outgoing_edges(&hash1);
    assert_eq!(outgoing.len(), 2);
    assert!(outgoing.iter().any(|e| e.target_query == "FuncA" && e.line_number == Some(10)));
    assert!(outgoing.iter().any(|e| e.target_query == "FuncB" && e.line_number == Some(20)));
    let incoming = store.incoming_edges("FuncA");
    assert_eq!(incoming.len(), 1);
    assert_eq!(incoming[0].source_hash, hash1);
}

#[test]
fn test_chunk_deduplication() {
    let mut store = IndexStore::new();
    let chunk = Chunk::new("fn duplicate() {}".to_string(), Language::Rust, ChunkKind::Function, Some("duplicate".to_string()));
    store.put_chunk(chunk.clone());
    store.put_chunk(chunk);
    assert_eq!(store.count(), 1, "Duplicate chunks should not create new entries");
}

#[test]
fn edges_need_a_stored_source() {
    let mut store = IndexStore::new();
    let c = rust_function("here", "");
    let here = c.content_hash;
    store.put_chunk(c);
    let stored = store.add_edges(&vec![
        Edge::new(here, "y".to_string(), EdgeKind::Calls),
        Edge::new(h("nowhere"), "x".to_string(), EdgeKind::Calls),
    ]);
    assert!(!stored);
    assert!(store.edges.is_empty());
    assert!(store.add_edges(&vec![Edge::new(here, "y".to_string(), EdgeKind::Calls)]));
    assert!(store.add_edges(&vec![Edge::new(here, "y".to_string(), EdgeKind::Calls)]));
    assert_eq!(store.edges.len(), 1);
}

fn batch() -> FileBatch {
    let a = rust_function("a", "b();");
    let b = rust_function("b", "");
    let edges = vec![Edge::new(a.content_hash, "b".to_string(), EdgeKind::Calls).with_line(2)];
    FileBatch {
        file_path: "src/lib.rs".to_string(),
        commit_hash: None,
        module_id: Some("root".to_string()),
        chunks: vec![a, b],
        embeddings: vec![Some(Embedding::new(vec![1, 2], "m".to_string())), None],
        attributions: vec![Some(("Ada".to_string(), "2024-01-01T00:00:00Z".to_string())), None],
        byte_starts: vec![0, 20],
        edges,
    }
}

#[test]
fn indexing_a_file_twice_keeps_the_keyed_tables() {
    let mut store = IndexStore::new();
    store.index_file(batch());
    let (chunks, embeddings, locations) = (store.chunks.len(), store.embeddings.len(), store.locations.len());
    assert_eq!((chunks, embeddings, locations), (2, 1, 2));
    assert_eq!(store.chunks[0].module_id, Some("root".to_string()));
    assert_eq!(store.locations[0].file_path, "src/lib.rs");
    assert_eq!(store.locations[0].author, Some("Ada".to_string()));
    assert_eq!(store.locations[1].author, None);
    assert_eq!(store.locations[1].byte_start, 20);
    assert_eq!(store.locations[1].byte_end, 20 + store.chunks[1].byte_size);
    store.index_file(batch());
    assert_eq!((store.chunks.len(), store.embeddings.len(), store.locations.len()), (chunks, embeddings, locations));
    assert_eq!(store.edges.len(), 1);
    let deduped: std::collections::HashSet<(String, String)> = store
        .edges
        .iter()
        .map(|e| (e.source_hash.to_hex(), e.target_query.clone()))
        .collect();
    assert_eq!(deduped.len(), 1);
}

#[test]
fn symbol_graph_from_chunks_and_edges() {
    let main = chunk_in("fn main() { run(); Ok(()) }", Some("main"), "root");
    let run = chunk_in("fn run() { zeta(); alpha(); zeta(); }", Some("run"), "root");
    let edges = vec![
        Edge::new(main.content_hash, "run".to_string(), EdgeKind::Calls),
        Edge::new(main.content_hash, "Ok".to_string(), EdgeKind::Calls),
        Edge::new(run.content_hash, "zeta".to_string(), EdgeKind::Calls),
        Edge::new(run.content_hash, "alpha".to_string(), EdgeKind::Calls),
        Edge::new(run.content_hash, "zeta".to_string(), EdgeKind::Calls),
    ];
    let chunks = vec![main, run];
    let allow = vec!["Ok".to_string()];
    let g = build_symbol_graph(&chunks, &edges, &allow);
    let idx = |n: &str| g.names.iter().position(|x| x == n).unwrap();
    let run_deps: Vec<&str> = g.deps[idx("run")].iter().map(|&j| g.names[j].as_str()).collect();
    assert_eq!(run_deps, vec!["alpha", "zeta"]);
    assert!(g.defined[idx("main")]);
    assert!(!g.defined[idx("alpha")]);
    assert!(g.common[idx("Ok")]);
    let roots = root_symbols(&g, &edges);
    assert_eq!(roots, vec![idx("main")]);
    let forest = dependency_forest(&g, &roots, 1);
    let names: Vec<&str> = forest.iter().map(|n| g.names[n.symbol].as_str()).collect();
    assert_eq!(names, vec!["main", "Ok", "run"]);
    assert!(is_common_symbol("Ok(x)", &allow));
    assert!(!is_common_symbol("Okay", &allow));
}

#[test]
fn module_graph_at_crate_level() {
    let modules = vec![
        module("m1", "m1", ProjectType::Crate, None),
        module("m2", "m2", ProjectType::Crate, None),
    ];
    let c1 = chunk_in("fn foo() {}", Some("foo"), "m1");
    let c2 = chunk_in("fn user() { foo() }", Some("user"), "m2");
    let edges = vec![Edge::new(c2.content_hash, "foo".to_string(), EdgeKind::Calls)];
    let chunks = vec![c1, c2];
    let graph = module_graph(&modules, &chunks, &edges, &Some(vec!["m2".to_string()]), true, false);
    assert_eq!(graph.len(), 1);
    assert_eq!(graph[0].module.id, "m2");
    assert_eq!(graph[0].dependencies.len(), 1);
    assert_eq!(graph[0].dependencies[0].target_id, "m1");
    assert_eq!(graph[0].dependencies[0].target_name, "m1");
    assert_eq!(graph[0].dependencies[0].count, 1);
    let all = module_graph(&modules, &chunks, &edges, &None, false, false);
    assert_eq!(all.len(), 2);
    assert!(all[0].dependencies.is_empty());
    assert!(graph[0].dependencies[0].edges.is_none());
    let detailed = module_graph(&modules, &chunks, &edges, &None, true, true);
    let details = detailed[1].dependencies[0].edges.as_ref().unwrap();
    assert_eq!(details.len(), 1);
    assert_eq!(details[0].source_symbol, "user");
    assert_eq!(details[0].target_symbol, "foo");
    assert_eq!(details[0].kind, EdgeKind::Calls);
}

fn indexed_store(chunks: Vec<(Chunk, &str, Option<&str>, Option<&str>)>) -> IndexStore {
    let mut store = IndexStore::new();
    for (c, path, author, ts) in chunks {
        let mut loc = codemate::ChunkLocation::new(c.content_hash, path.to_string(), 0, c.byte_size, 1, 1);
        if let Some(a) = author {
            loc = loc.with_author(a.to_string());
        }
        if let Some(t) = ts {
            loc = loc.with_timestamp(t.to_string());
        }
        store.put_chunk(c);
        store.put_location(loc.with_commit("c0".to_string()));
    }
    store
}

#[test]
fn filter_narrows_by_language() {
    let rust = Chunk::new("fn parser() {}".to_string(), Language::Rust, ChunkKind::Function, Some("parser".to_string()));
    let py = Chunk::new("def parser(): pass".to_string(), Language::Python, ChunkKind::Function, Some("parser".to_string()));
    let (hr, hp) = (rust.content_hash, py.content_hash);
    let store = indexed_store(vec![(rust, "a.rs", None, None), (py, "a.py", None, None)]);
    let q = SearchQuery::parse("parser lang:rust");
    let allowed = candidate_set(&store, &q);
    assert_eq!(allowed, Some(vec![hr]));
    let ranked = hybrid_rank(&vec![hp, hr], &vec![hr, hp], &allowed, q.limit);
    assert_eq!(ranked.len(), 1);
    assert_eq!(ranked[0].hash, hr);
    assert_eq!(candidate_set(&store, &SearchQuery::parse("parser")), None);
}

#[test]
fn filter_by_author_path_and_dates() {
    let a = Chunk::new("fn a() {}".to_string(), Language::Rust, ChunkKind::Function, Some("a".to_string()));
    let b = Chunk::new("fn b() {}".to_string(), Language::Rust, ChunkKind::Function, Some("b".to_string()));
    let (ha, hb) = (a.content_hash, b.content_hash);
    let store = indexed_store(vec![
        (a, "src/core/a.rs", Some("Stanley Kubrick"), Some("2024-03-01T10:00:00Z")),
        (b, "tests/b.rs", Some("Ada"), Some("2023-01-01T00:00:00Z")),
    ]);
    assert_eq!(candidate_set(&store, &SearchQuery::parse("x author:Stanley")), Some(vec![ha]));
    assert_eq!(candidate_set(&store, &SearchQuery::parse("x file:tests/")), Some(vec![hb]));
    assert_eq!(
        candidate_set(&store, &SearchQuery::parse("x after:2024-01-01T00:00:00Z")),
        Some(vec![ha])
    );
    assert_eq!(
        candidate_set(&store, &SearchQuery::parse("x before:2024-01-01T00:00:00+00:00")),
        Some(vec![hb])
    );
    assert_eq!(candidate_set(&store, &SearchQuery::parse("x author:Nobody")), Some(vec![]));
}

#[test]
fn exact_symbol_is_ranked_first() {
    let target = h("fn authenticate_user(u,p){...}");
    let other = h("fn other() {}");
    let ranked = hybrid_rank(&vec![other, target], &vec![target], &None, 5);
    assert_eq!(ranked[0].hash, target);
    assert_eq!(ranked.len(), 2);
}

#[test]
fn test_extract_rust_function() {
    let content = r#"
fn hello() {
    println!("Hello, world!");
}

fn goodbye() {
    println!("Goodbye!");
}
"#;
    let extractor = ChunkExtractor::new();
    let (chunks, _edges) = extractor.extract(content, Language::Rust).unwrap();
    assert_eq!(chunks.len(), 2);
    assert_eq!(chunks[0].symbol_name, Some("hello".to_string()));
    assert_eq!(chunks[1].symbol_name, Some("goodbye".to_string()));
}

#[test]
fn test_extract_rust_struct() {
    let content = r#"
pub struct User {
    name: String,
    age: u32,
}
"#;
    let extractor = ChunkExtractor::new();
    let (chunks, _edges) = extractor.extract(content, Language::Rust).unwrap();
    assert_eq!(chunks.len(), 1);
    assert_eq!(chunks[0].kind, ChunkKind::Struct);
    assert_eq!(chunks[0].symbol_name, Some("User".to_string()));
}

#[test]
fn test_extract_go_function() {
    let content = r#"
package main

func hello() {
    fmt.Println("Hello, world!")
}

func goodbye() {
    fmt.Println("Goodbye!")
}
"#;
    let extractor = ChunkExtractor::new();
    let (chunks, _edges) = extractor.extract(content, Language::Go).unwrap();
    assert_eq!(chunks.len(), 2);
    assert_eq!(chunks[0].symbol_name, Some("hello".to_string()));
    assert_eq!(chunks[1].symbol_name, Some("goodbye".to_string()));
}

#[test]
fn test_extract_terraform_resource() {
    let content = r#"
resource "aws_instance" "web" {
  ami           = "ami-12345678"
  instance_type = "t2.micro"
}

variable "region" {
  type    = string
  default = "us-west-2"
}

output "instance_ip" {
  value = aws_instance.web.public_ip
}
"#;
    let extractor = ChunkExtractor::new();
    let (chunks, _edges) = extractor.extract(content, Language::Hcl).unwrap();
    assert_eq!(chunks.len(), 3);
    let resource = chunks.iter().find(|c| c.kind == ChunkKind::Resource);
    assert!(resource.is_some());
    assert_eq!(resource.unwrap().symbol_name, Some("aws_instance.web".to_string()));
    let variable = chunks.iter().find(|c| c.kind == ChunkKind::Variable);
    assert!(variable.is_some());
    let output = chunks.iter().find(|c| c.kind == ChunkKind::Output);
    assert!(output.is_some());
}

#[test]
fn extraction_edges_leave_chunks() {
    let content = "use std::path::Path;\n\nfn run() {\n    helper(1);\n    Path::new(\"x\");\n}\n";
    let (chunks, edges) = ChunkExtractor::new().extract(content, Language::Rust).unwrap();
    assert_eq!(chunks.len(), 1);
    assert_eq!((chunks[0].line_start, chunks[0].line_end), (3, 6));
    let targets: Vec<(&str, EdgeKind, Option<usize>)> =
        edges.iter().map(|e| (e.target_query.as_str(), e.kind, e.line_number)).collect();
    assert!(targets.contains(&("helper", EdgeKind::Calls, Some(4))));
    assert!(targets.contains(&("Path::new", EdgeKind::Calls, Some(5))));
    let py = "import os\n\ndef f():\n    g()\n\nclass K:\n    pass\n";
    let (pc, pe) = ChunkExtractor::new().extract(py, Language::Python).unwrap();
    assert_eq!(pc.len(), 2);
    assert!(pe.iter().all(|e| e.kind != EdgeKind::Imports));
    assert!(edges.iter().all(|e| chunks.iter().any(|c| c.content_hash == e.source_hash)));
    assert!(pe.iter().any(|e| e.target_query == "g" && e.kind == EdgeKind::Calls));
    let (whole, _) = ChunkExtractor::new().extract("x y z", Language::Java).unwrap();
    assert_eq!(whole.len(), 1);
    let (small, _) = ChunkExtractor::new().with_max_lines(1).extract("fn a() {\n}\n", Language::Rust).unwrap();
    assert!(small.is_empty());
}

#[test]
fn context_and_related_symbols() {
    let mut store = IndexStore::new();
    let a = rust_function("a", "b();");
    let b = rust_function("b", "");
    let c = rust_function("c", "");
    let (ha, hb, hc) = (a.content_hash, b.content_hash, c.content_hash);
    store.put_chunk(a);
    store.put_chunk(b);
    store.put_chunk(c);
    store.add_edges(&vec![
        Edge::new(ha, "b".to_string(), EdgeKind::Calls),
        Edge::new(ha, "Vec::new".to_string(), EdgeKind::Calls),
    ]);
    assert_eq!(store.find_by_symbol("b").len(), 1);
    assert!(store.find_by_symbol("zz").is_empty());
    let r = store.related("a", &vec![ha, hc, hb], 1);
    assert_eq!(r.graph_neighbors, vec!["b".to_string(), "Vec::new".to_string()]);
    assert_eq!(r.semantic_relatives, vec!["c".to_string()]);
    let none = store.related("zz", &vec![ha], 3);
    assert!(none.graph_neighbors.is_empty() && none.semantic_relatives.is_empty());
}

#[test]
fn location_queries() {
    let mut store = IndexStore::new();
    store.index_file(batch());
    let h = store.chunks[0].content_hash;
    assert_eq!(store.locations_of(&h).len(), 1);
    assert_eq!(store.locations_in_file("src/lib.rs").len(), 2);
    assert!(store.locations_in_file("other.rs").is_empty());
    assert!(store.locations_at_commit("abc").is_empty());
}

#[test]
fn filters_read_the_most_recent_location() {
    let mut store = IndexStore::new();
    let c = Chunk::new("fn moved() {}".to_string(), Language::Rust, ChunkKind::Function, Some("moved".to_string()));
    let hc = c.content_hash;
    store.put_chunk(c);
    let old_loc = codemate::ChunkLocation::new(hc, "old/a.rs".to_string(), 0, 1, 1, 1)
        .with_commit("c1".to_string())
        .with_author("Ada".to_string())
        .with_timestamp("2023-01-01T00:00:00Z".to_string());
    let new_loc = codemate::ChunkLocation::new(hc, "new/a.rs".to_string(), 0, 1, 1, 1)
        .with_commit("c2".to_string())
        .with_author("Grace".to_string())
        .with_timestamp("2024-06-01T00:00:00Z".to_string());
    store.put_location(new_loc);
    store.put_location(old_loc);
    assert_eq!(candidate_set(&store, &SearchQuery::parse("x author:Grace")), Some(vec![hc]));
    assert_eq!(candidate_set(&store, &SearchQuery::parse("x author:Ada")), Some(vec![]));
    assert_eq!(candidate_set(&store, &SearchQuery::parse("x file:old/")), Some(vec![]));
}

#[test]
fn filter_keys_after_lowercasing() {
    assert_eq!(filter_key("author"), Some(FilterKey::Author));
    assert_eq!(filter_key("language"), Some(FilterKey::Lang));
    assert_eq!(filter_key("path"), Some(FilterKey::File));
    assert_eq!(filter_key("Author"), None);
    assert_eq!(filter_key("unknown"), None);
}

#[test]
fn extraction_fallback_and_failures() {
    let (cs, es) = ChunkExtractor::new().extract("class A {}", Language::Java).unwrap();
    assert_eq!(cs.len(), 1);
    assert_eq!(cs[0].content, "class A {}");
    assert_eq!(cs[0].kind, ChunkKind::Block);
    assert!(es.is_empty());
}

#[test]
fn dependencies_by_count_highest_first() {
    let modules = vec![
        module("a", "a", ProjectType::Crate, None),
        module("b", "b", ProjectType::Crate, None),
        module("c", "c", ProjectType::Crate, None),
    ];
    let ca = chunk_in("fn user() {}", Some("user"), "a");
    let cb = chunk_in("fn bee() {}", Some("bee"), "b");
    let cc = chunk_in("fn sea() {}", Some("sea"), "c");
    let edges = vec![
        Edge::new(ca.content_hash, "bee".to_string(), EdgeKind::Calls),
        Edge::new(ca.content_hash, "sea".to_string(), EdgeKind::Calls).with_line(1),
        Edge::new(ca.content_hash, "sea".to_string(), EdgeKind::Calls).with_line(2),
    ];
    let chunks = vec![ca, cb, cc];
    let g = module_graph(&modules, &chunks, &edges, &Some(vec!["a".to_string()]), true, false);
    let deps: Vec<(String, usize)> = g[0].dependencies.iter().map(|d| (d.target_id.clone(), d.count)).collect();
    assert_eq!(deps, vec![("c".to_string(), 2), ("b".to_string(), 1)]);
    let tied = codemate::rollup::order_by_count(&vec![("x".to_string(), 1), ("y".to_string(), 3), ("z".to_string(), 1)]);
    assert_eq!(tied, vec![("y".to_string(), 3), ("x".to_string(), 1), ("z".to_string(), 1)]);
}

#[test]
fn deepest_module_by_components() {
    let mut detector = ProjectDetector::new("/r");
    detector.set_modules(vec![
        Module::new("root".to_string(), "".to_string(), Language::Unknown, ProjectType::Directory),
        Module::new("a".to_string(), "a".to_string(), Language::Rust, ProjectType::Crate),
    ]);
    assert_eq!(detector.get_module_id_for_file("/r/a/x.rs"), Some("a".to_string()));
    assert_eq!(detector.get_module_id_for_file("/r/b/x.rs"), Some("".to_string()));
}

#[test]
fn chunk_offsets_follow_the_file() {
    let content = "fn a() {}\nfn b() {}\nfn a() {}\n";
    let (chunks, _) = ChunkExtractor::new().extract(content, Language::Rust).unwrap();
    let offsets = codemate::pipeline::chunk_offsets(content, &chunks);
    assert_eq!(offsets, vec![Some(0), Some(10), Some(20)]);
    let missing = codemate::pipeline::chunk_offsets("x", &chunks);
    assert_eq!(missing, vec![None, None, None]);
}

#[test]
fn location_without_commit_is_replaced() {
    let mut store = IndexStore::new();
    let c = rust_function("f", "");
    let hc = c.content_hash;
    store.put_chunk(c);
    store.put_location(codemate::ChunkLocation::new(hc, "a.rs".to_string(), 0, 1, 1, 1));
    store.put_location(codemate::ChunkLocation::new(hc, "a.rs".to_string(), 5, 6, 2, 2));
    assert_eq!(store.locations.len(), 1);
    assert_eq!(store.locations[0].byte_start, 5);
}
