//! Chunk and edge extraction from source text, over the syntax trees of the
//! tree-sitter grammars.
use crate::chunk::{count_lines, line_count_of, Chunk, ChunkKind, Edge, EdgeKind, Language};
use crate::content_hash::ContentHash;
use crate::pipeline::ChunkExtractor;
use crate::text::{chars_of, string_of, text_eq};
use vstd::string::StringSliceAdditionalSpecFns;
use vstd::utf8::encode_utf8;
use tree_sitter::{Node, Tree};
use vstd::prelude::*;

verus! {

#[verifier::external_type_specification]
#[verifier::external_body]
pub struct ExTree(tree_sitter::Tree);

#[verifier::external_type_specification]
#[verifier::external_body]
pub struct ExNode<'a>(tree_sitter::Node<'a>);

/// Relies on `tree_sitter::Parser` with the Rust grammar of `tree-sitter-rust`:
/// the syntax tree of the text, where the parser yields one.
#[verifier::external_body]
fn parse_rust(content: &str) -> Option<Tree> {
    let mut p = tree_sitter::Parser::new();
    p.set_language(&tree_sitter_rust::LANGUAGE.into()).ok()?;
    p.parse(content, None)
}

/// Relies on `tree_sitter::Parser` with the grammar of `tree-sitter-python`.
#[verifier::external_body]
fn parse_python(content: &str) -> Option<Tree> {
    let mut p = tree_sitter::Parser::new();
    p.set_language(&tree_sitter_python::LANGUAGE.into()).ok()?;
    p.parse(content, None)
}

/// Relies on `tree_sitter::Parser` with the TypeScript grammar of `tree-sitter-typescript`.
#[verifier::external_body]
fn parse_typescript(content: &str) -> Option<Tree> {
    let mut p = tree_sitter::Parser::new();
    p.set_language(&tree_sitter_typescript::LANGUAGE_TYPESCRIPT.into()).ok()?;
    p.parse(content, None)
}

/// Relies on `tree_sitter::Parser` with the grammar of `tree-sitter-go`.
#[verifier::external_body]
fn parse_go(content: &str) -> Option<Tree> {
    let mut p = tree_sitter::Parser::new();
    p.set_language(&tree_sitter_go::LANGUAGE.into()).ok()?;
    p.parse(content, None)
}

/// Relies on `tree_sitter::Parser` with the grammar of `tree-sitter-hcl`.
#[verifier::external_body]
fn parse_hcl(content: &str) -> Option<Tree> {
    let mut p = tree_sitter::Parser::new();
    p.set_language(&tree_sitter_hcl::LANGUAGE.into()).ok()?;
    p.parse(content, None)
}

/// Relies on `tree_sitter::Tree::root_node`: the root of the tree.
#[verifier::external_body]
fn root_of(t: &Tree) -> Node<'_> {
    t.root_node()
}

/// Relies on `tree_sitter::Node::kind`: the grammar's name for the node's type.
#[verifier::external_body]
fn kind_of(n: &Node) -> &'static str {
    n.kind()
}

/// Relies on `tree_sitter::Node::child_count`: the number of children.
#[verifier::external_body]
fn child_count(n: &Node) -> usize {
    n.child_count()
}

/// Relies on `tree_sitter::Node::child`: the child at position `i`, if any.
#[verifier::external_body]
fn child_at<'a>(n: &Node<'a>, i: usize) -> Option<Node<'a>> {
    n.child(i)
}

/// Relies on `tree_sitter::Node::child_by_field_name`: the child in field `function`.
#[verifier::external_body]
fn function_field<'a>(n: &Node<'a>) -> Option<Node<'a>> {
    n.child_by_field_name("function")
}

/// Relies on `tree_sitter::Node::start_position`: the 0-based first row.
#[verifier::external_body]
fn start_row(n: &Node) -> usize {
    n.start_position().row
}

/// Relies on `tree_sitter::Node::end_position`: the 0-based last row.
#[verifier::external_body]
fn end_row(n: &Node) -> usize {
    n.end_position().row
}

/// Relies on `tree_sitter::Node::start_byte`: the node's first byte offset.
#[verifier::external_body]
fn start_byte(n: &Node) -> usize {
    n.start_byte()
}

/// Relies on `tree_sitter::Node::end_byte`: the node's end byte offset.
#[verifier::external_body]
fn end_byte(n: &Node) -> usize {
    n.end_byte()
}

/// `t` is a piece of `content`: its UTF-8 bytes are a contiguous range of
/// the bytes of `content`.
pub open spec fn is_slice_of(t: Seq<char>, content: Seq<char>) -> bool {
    exists|a: int, b: int|
        0 <= a <= b <= encode_utf8(content).len() && #[trigger] encode_utf8(content).subrange(a, b)
            == encode_utf8(t)
}

/// The text of `content` between byte offsets `a` and `b`, where they are
/// ordered, within it, and on character boundaries.
fn slice_text(content: &str, a: usize, b: usize) -> (r: Option<String>)
    ensures
        r matches Some(t) ==> is_slice_of(t@, content@),
{
    let n = content.as_bytes().len();
    if a > b || b > n || !content.is_char_boundary(a) {
        return None;
    }
    let (_, rest) = content.split_at(a);
    if !rest.is_char_boundary(b - a) {
        return None;
    }
    let (mid, _) = rest.split_at(b - a);
    let t = mid.to_owned();
    proof {
        assert(encode_utf8(t@) == mid.spec_bytes());
        assert(mid.spec_bytes() =~= encode_utf8(content@).subrange(a as int, b as int));
    }
    Some(t)
}

/// The text of a node in `content`.
fn node_text(n: &Node, content: &str) -> (r: Option<String>)
    ensures
        r matches Some(t) ==> is_slice_of(t@, content@),
{
    slice_text(content, start_byte(n), end_byte(n))
}

/// Why a text could not be split into chunks.
#[derive(Clone, Copy, Debug, PartialEq, Eq, Structural)]
pub enum ExtractError {
    /// The parser yielded no syntax tree.
    Parse,
}

/// Every chunk is well formed, of language `l`, a piece of `content` whose
/// line count is that of its text and at most `max_lines`, and belongs to no
/// module yet.
pub open spec fn chunks_ok(cs: Seq<Chunk>, l: Language, content: Seq<char>, max_lines: usize) -> bool {
    forall|i: int|
        0 <= i < cs.len() ==> {
            &&& (#[trigger] cs[i]).wf()
            &&& cs[i].language == l
            &&& is_slice_of(cs[i].content@, content)
            &&& cs[i].line_count == line_count_of(cs[i].content@)
            &&& cs[i].line_count <= max_lines
            &&& cs[i].module_id is None
        }
}

/// Some chunk of `cs` has hash `h`.
pub open spec fn hash_in(cs: Seq<Chunk>, h: Seq<u8>) -> bool {
    exists|k: int| 0 <= k < cs.len() && (#[trigger] cs[k]).content_hash@ == h
}

/// Every edge leaves a chunk of `cs`.
pub open spec fn edges_ok(es: Seq<Edge>, cs: Seq<Chunk>) -> bool {
    forall|i: int| 0 <= i < es.len() ==> hash_in(cs, (#[trigger] es[i]).source_hash@)
}

/// `cs2` extends `cs1`.
pub open spec fn extends(cs1: Seq<Chunk>, cs2: Seq<Chunk>) -> bool {
    cs1.len() <= cs2.len() && forall|i: int| 0 <= i < cs1.len() ==> #[trigger] cs2[i] == cs1[i]
}

proof fn lemma_edges_ok_extend(es: Seq<Edge>, cs1: Seq<Chunk>, cs2: Seq<Chunk>)
    requires
        edges_ok(es, cs1),
        extends(cs1, cs2),
    ensures
        edges_ok(es, cs2),
{
    assert forall|i: int| 0 <= i < es.len() implies hash_in(cs2, (#[trigger] es[i]).source_hash@) by {
        let k = choose|k: int| 0 <= k < cs1.len() && (#[trigger] cs1[k]).content_hash@ == es[i].source_hash@;
        assert(cs2[k] == cs1[k]);
    }
}

/// The language has a grammar here.
pub open spec fn has_grammar(l: Language) -> bool {
    l == Language::Rust || l == Language::Python || l == Language::TypeScript || l == Language::JavaScript
        || l == Language::Go || l == Language::Hcl
}

fn one_based(row: usize) -> usize {
    if row < usize::MAX {
        row + 1
    } else {
        row
    }
}

/// Add chunk `c` and then the edges that leave it.
fn add_chunk(
    chunks: &mut Vec<Chunk>,
    edges: &mut Vec<Edge>,
    c: Chunk,
    mut from_c: Vec<Edge>,
    Ghost(l): Ghost<Language>,
    Ghost(content): Ghost<Seq<char>>,
    Ghost(max): Ghost<usize>,
)
    requires
        chunks_ok(old(chunks)@, l, content, max),
        edges_ok(old(edges)@, old(chunks)@),
        c.wf(),
        c.language == l,
        is_slice_of(c.content@, content),
        c.line_count == line_count_of(c.content@),
        c.line_count <= max,
        c.module_id is None,
        forall|i: int| 0 <= i < from_c@.len() ==> (#[trigger] from_c@[i]).source_hash@ == c.content_hash@,
    ensures
        chunks_ok(final(chunks)@, l, content, max),
        edges_ok(final(edges)@, final(chunks)@),
        extends(old(chunks)@, final(chunks)@),
{
    let ghost c0 = chunks@;
    chunks.push(c);
    proof {
        lemma_edges_ok_extend(edges@, c0, chunks@);
        assert(chunks@[chunks@.len() - 1] == c);
    }
    let mut i: usize = 0;
    while i < from_c.len()
        invariant
            0 <= i <= from_c@.len(),
            edges_ok(edges@, chunks@),
            chunks@.len() > 0,
            chunks@[chunks@.len() - 1] == c,
            forall|j: int| 0 <= j < from_c@.len() ==> (#[trigger] from_c@[j]).source_hash@ == c.content_hash@,
        decreases from_c@.len() - i,
    {
        let ghost eb = edges@;
        edges.push(from_c[i].clone_edge());
        proof {
            assert forall|q: int| 0 <= q < edges@.len() implies hash_in(chunks@, (#[trigger] edges@[q]).source_hash@) by {
                if q < eb.len() {
                    assert(edges@[q] == eb[q]);
                } else {
                    assert(chunks@[chunks@.len() - 1].content_hash@ == edges@[q].source_hash@);
                }
            }
        }
        i = i + 1;
    }
}

impl ChunkExtractor {
    /// Split source text into chunks and edges with the grammar of its
    /// language; a language without a grammar gives the whole text as one
    /// block chunk and no edges. Every chunk is a well-formed piece of the
    /// text of at most `max_lines` lines with no module yet, and every edge
    /// leaves one of the chunks.
    pub fn extract(&self, content: &str, language: Language) -> (r: Result<(Vec<Chunk>, Vec<Edge>), ExtractError>)
        ensures
            r is Err ==> has_grammar(language),
            r matches Ok((cs, es)) ==> has_grammar(language) ==> chunks_ok(cs@, language, content@, self.max_lines)
                && edges_ok(es@, cs@),
            !has_grammar(language) ==> (r matches Ok((cs, es)) && cs@.len() == 1 && cs@[0].wf() && cs@[0].content@
                == content@ && cs@[0].language == language && cs@[0].kind == ChunkKind::Block
                && cs@[0].symbol_name is None && es@.len() == 0),
    {
        let tree = match language {
            Language::Rust => parse_rust(content),
            Language::Python => parse_python(content),
            Language::TypeScript | Language::JavaScript => parse_typescript(content),
            Language::Go => parse_go(content),
            Language::Hcl => parse_hcl(content),
            _ => {
                return Ok(self.extract_fallback(content, language));
            },
        };
        let tree = match tree {
            Some(t) => t,
            None => {
                return Err(ExtractError::Parse);
            },
        };
        let root = root_of(&tree);
        let mut chunks: Vec<Chunk> = Vec::new();
        let mut edges: Vec<Edge> = Vec::new();
        match language {
            Language::Rust => self.rust_nodes(&root, content, &mut chunks, &mut edges, usize::MAX),
            Language::Python => self.python_nodes(&root, content, &mut chunks, &mut edges, usize::MAX),
            Language::Go => self.go_nodes(&root, content, &mut chunks, &mut edges, usize::MAX),
            Language::Hcl => self.hcl_nodes(&root, content, &mut chunks, &mut edges, usize::MAX),
            _ => self.typescript_nodes(&root, content, language, &mut chunks, &mut edges, usize::MAX),
        }
        Ok((chunks, edges))
    }

    /// The name of the first child that is an identifier, a type identifier or a name.
    fn symbol_name(&self, node: &Node, content: &str) -> Option<String> {
        let n = child_count(node);
        let mut i: usize = 0;
        while i < n
            decreases n - i,
        {
            if let Some(c) = child_at(node, i) {
                let k = kind_of(&c);
                if text_eq(k, "identifier") || text_eq(k, "type_identifier") || text_eq(k, "name") {
                    return node_text(&c, content);
                }
            }
            i = i + 1;
        }
        None
    }

    /// The chunk of a node, where its text has at most `max_lines` lines.
    fn node_to_chunk(&self, node: &Node, content: &str, language: Language, kind: ChunkKind) -> (r: Option<Chunk>)
        ensures
            r matches Some(c) ==> c.wf() && c.language == language && c.kind == kind && c.line_count
                <= self.max_lines && c.line_count == line_count_of(c.content@) && is_slice_of(c.content@, content@)
                && c.module_id is None,
    {
        let text = node_text(node, content)?;
        if crate::chunk::count_lines(text.as_str()) > self.max_lines {
            return None;
        }
        let symbol = self.symbol_name(node, content);
        let c = Chunk::new(text, language, kind, symbol);
        let (s, e) = (one_based(start_row(node)), one_based(end_row(node)));
        if s <= e {
            Some(c.with_line_range(s, e))
        } else {
            Some(c)
        }
    }

    /// The target of a call: the text of its `function` field.
    fn call_target(&self, node: &Node, content: &str) -> Option<String> {
        match function_field(node) {
            Some(f) => node_text(&f, content),
            None => None,
        }
    }

    /// The calls inside a function chunk, as edges from it.
    fn call_edges(&self, node: &Node, content: &str, source: &ContentHash, python: bool, edges: &mut Vec<Edge>, fuel: usize)
        requires
            forall|i: int| 0 <= i < old(edges)@.len() ==> (#[trigger] old(edges)@[i]).source_hash@ == source@,
        ensures
            forall|i: int| 0 <= i < final(edges)@.len() ==> (#[trigger] final(edges)@[i]).source_hash@ == source@,
        decreases fuel,
    {
        if fuel == 0 {
            return;
        }
        let n = child_count(node);
        let mut i: usize = 0;
        while i < n
            invariant
                fuel > 0,
                forall|q: int| 0 <= q < edges@.len() ==> (#[trigger] edges@[q]).source_hash@ == source@,
            decreases n - i,
        {
            if let Some(c) = child_at(node, i) {
                let k = kind_of(&c);
                if text_eq(k, "call_expression") || (python && text_eq(k, "call")) {
                    let target = if python {
                        self.python_call_target(&c, content)
                    } else {
                        self.call_target(&c, content)
                    };
                    if let Some(t) = target {
                        edges.push(Edge::new(*source, t, EdgeKind::Calls).with_line(one_based(start_row(&c))));
                    }
                }
                self.call_edges(&c, content, source, python, edges, fuel - 1);
            }
            i = i + 1;
        }
    }

    /// The target of a Python call: its `function` field, or else its first identifier child.
    fn python_call_target(&self, node: &Node, content: &str) -> Option<String> {
        if let Some(f) = function_field(node) {
            return node_text(&f, content);
        }
        let n = child_count(node);
        let mut i: usize = 0;
        while i < n
            decreases n - i,
        {
            if let Some(c) = child_at(node, i) {
                if text_eq(kind_of(&c), "identifier") {
                    return node_text(&c, content);
                }
            }
            i = i + 1;
        }
        None
    }

    /// Add the chunk of a node of the given kind, with the calls inside it
    /// where it is a function.
    fn take_node(
        &self,
        node: &Node,
        content: &str,
        language: Language,
        kind: ChunkKind,
        python: bool,
        chunks: &mut Vec<Chunk>,
        edges: &mut Vec<Edge>,
    )
        requires
            chunks_ok(old(chunks)@, language, content@, self.max_lines),
            edges_ok(old(edges)@, old(chunks)@),
        ensures
            chunks_ok(final(chunks)@, language, content@, self.max_lines),
            edges_ok(final(edges)@, final(chunks)@),
            extends(old(chunks)@, final(chunks)@),
    {
        if let Some(c) = self.node_to_chunk(node, content, language, kind) {
            let mut calls: Vec<Edge> = Vec::new();
            if kind == ChunkKind::Function {
                self.call_edges(node, content, &c.content_hash, python, &mut calls, usize::MAX);
            }
            add_chunk(chunks, edges, c, calls, Ghost(language), Ghost(content@), Ghost(self.max_lines));
        } else {
            assert(extends(chunks@, chunks@));
        }
    }

    fn rust_nodes(&self, node: &Node, content: &str, chunks: &mut Vec<Chunk>, edges: &mut Vec<Edge>, fuel: usize)
        requires
            chunks_ok(old(chunks)@, Language::Rust, content@, self.max_lines),
            edges_ok(old(edges)@, old(chunks)@),
        ensures
            chunks_ok(final(chunks)@, Language::Rust, content@, self.max_lines),
            edges_ok(final(edges)@, final(chunks)@),
            extends(old(chunks)@, final(chunks)@),
        decreases fuel,
    {
        assert(extends(chunks@, chunks@));
        if fuel == 0 {
            return;
        }
        let k = kind_of(node);
        let kind = if text_eq(k, "function_item") {
            Some(ChunkKind::Function)
        } else if text_eq(k, "struct_item") {
            Some(ChunkKind::Struct)
        } else if text_eq(k, "enum_item") {
            Some(ChunkKind::Enum)
        } else if text_eq(k, "trait_item") {
            Some(ChunkKind::Trait)
        } else if text_eq(k, "impl_item") {
            Some(ChunkKind::Impl)
        } else if text_eq(k, "mod_item") {
            Some(ChunkKind::Module)
        } else {
            None
        };
        if let Some(ck) = kind {
            self.take_node(node, content, Language::Rust, ck, false, chunks, edges);
            return;
        }
        if text_eq(k, "use_declaration") || text_eq(k, "call_expression") {
            return;
        }
        let n = child_count(node);
        let mut i: usize = 0;
        while i < n
            invariant
                chunks_ok(chunks@, Language::Rust, content@, self.max_lines),
                edges_ok(edges@, chunks@),
                extends(old(chunks)@, chunks@),
                fuel > 0,
            decreases n - i,
        {
            if let Some(c) = child_at(node, i) {
                let ghost cb = chunks@;
                self.rust_nodes(&c, content, chunks, edges, fuel - 1);
                assert(extends(old(chunks)@, chunks@)) by {
                    assert forall|q: int| 0 <= q < old(chunks)@.len() implies #[trigger] chunks@[q] == old(chunks)@[q] by {
                        assert(chunks@[q] == cb[q]);
                    }
                }
            }
            i = i + 1;
        }
    }

    fn python_nodes(&self, node: &Node, content: &str, chunks: &mut Vec<Chunk>, edges: &mut Vec<Edge>, fuel: usize)
        requires
            chunks_ok(old(chunks)@, Language::Python, content@, self.max_lines),
            edges_ok(old(edges)@, old(chunks)@),
        ensures
            chunks_ok(final(chunks)@, Language::Python, content@, self.max_lines),
            edges_ok(final(edges)@, final(chunks)@),
            extends(old(chunks)@, final(chunks)@),
        decreases fuel,
    {
        assert(extends(chunks@, chunks@));
        if fuel == 0 {
            return;
        }
        let k = kind_of(node);
        if text_eq(k, "function_definition") {
            self.take_node(node, content, Language::Python, ChunkKind::Function, true, chunks, edges);
            return;
        }
        if text_eq(k, "class_definition") {
            self.take_node(node, content, Language::Python, ChunkKind::Class, true, chunks, edges);
            return;
        }
        if text_eq(k, "import_statement") || text_eq(k, "import_from_statement") {
            return;
        }
        let n = child_count(node);
        let mut i: usize = 0;
        while i < n
            invariant
                chunks_ok(chunks@, Language::Python, content@, self.max_lines),
                edges_ok(edges@, chunks@),
                extends(old(chunks)@, chunks@),
                fuel > 0,
            decreases n - i,
        {
            if let Some(c) = child_at(node, i) {
                let ghost cb = chunks@;
                self.python_nodes(&c, content, chunks, edges, fuel - 1);
                assert(extends(old(chunks)@, chunks@)) by {
                    assert forall|q: int| 0 <= q < old(chunks)@.len() implies #[trigger] chunks@[q] == old(chunks)@[q] by {
                        assert(chunks@[q] == cb[q]);
                    }
                }
            }
            i = i + 1;
        }
    }

    fn typescript_nodes(
        &self,
        node: &Node,
        content: &str,
        language: Language,
        chunks: &mut Vec<Chunk>,
        edges: &mut Vec<Edge>,
        fuel: usize,
    )
        requires
            chunks_ok(old(chunks)@, language, content@, self.max_lines),
            edges_ok(old(edges)@, old(chunks)@),
        ensures
            chunks_ok(final(chunks)@, language, content@, self.max_lines),
            edges_ok(final(edges)@, final(chunks)@),
            extends(old(chunks)@, final(chunks)@),
        decreases fuel,
    {
        assert(extends(chunks@, chunks@));
        if fuel == 0 {
            return;
        }
        let k = kind_of(node);
        if text_eq(k, "function_declaration") || text_eq(k, "arrow_function") || text_eq(k, "method_definition") {
            self.take_node(node, content, language, ChunkKind::Function, false, chunks, edges);
            return;
        }
        if text_eq(k, "class_declaration") {
            self.take_node(node, content, language, ChunkKind::Class, false, chunks, edges);
            return;
        }
        if text_eq(k, "import_declaration") {
            return;
        }
        let n = child_count(node);
        let mut i: usize = 0;
        while i < n
            invariant
                chunks_ok(chunks@, language, content@, self.max_lines),
                edges_ok(edges@, chunks@),
                extends(old(chunks)@, chunks@),
                fuel > 0,
            decreases n - i,
        {
            if let Some(c) = child_at(node, i) {
                let ghost cb = chunks@;
                self.typescript_nodes(&c, content, language, chunks, edges, fuel - 1);
                assert(extends(old(chunks)@, chunks@)) by {
                    assert forall|q: int| 0 <= q < old(chunks)@.len() implies #[trigger] chunks@[q] == old(chunks)@[q] by {
                        assert(chunks@[q] == cb[q]);
                    }
                }
            }
            i = i + 1;
        }
    }

    fn go_nodes(&self, node: &Node, content: &str, chunks: &mut Vec<Chunk>, edges: &mut Vec<Edge>, fuel: usize)
        requires
            chunks_ok(old(chunks)@, Language::Go, content@, self.max_lines),
            edges_ok(old(edges)@, old(chunks)@),
        ensures
            chunks_ok(final(chunks)@, Language::Go, content@, self.max_lines),
            edges_ok(final(edges)@, final(chunks)@),
            extends(old(chunks)@, final(chunks)@),
        decreases fuel,
    {
        assert(extends(chunks@, chunks@));
        if fuel == 0 {
            return;
        }
        let k = kind_of(node);
        if text_eq(k, "function_declaration") || text_eq(k, "method_declaration") {
            self.take_node(node, content, Language::Go, ChunkKind::Function, false, chunks, edges);
            return;
        }
        if text_eq(k, "type_declaration") {
            let n = child_count(node);
            let mut i: usize = 0;
            while i < n
                invariant
                    chunks_ok(chunks@, Language::Go, content@, self.max_lines),
                    edges_ok(edges@, chunks@),
                    extends(old(chunks)@, chunks@),
                decreases n - i,
            {
                if let Some(spec) = child_at(node, i) {
                    if text_eq(kind_of(&spec), "type_spec") {
                        let m = child_count(&spec);
                        let mut j: usize = 0;
                        while j < m
                            invariant
                                chunks_ok(chunks@, Language::Go, content@, self.max_lines),
                                edges_ok(edges@, chunks@),
                                extends(old(chunks)@, chunks@),
                            decreases m - j,
                        {
                            if let Some(inner) = child_at(&spec, j) {
                                let ik = kind_of(&inner);
                                let ck = if text_eq(ik, "struct_type") {
                                    Some(ChunkKind::Struct)
                                } else if text_eq(ik, "interface_type") {
                                    Some(ChunkKind::Trait)
                                } else {
                                    None
                                };
                                if let Some(ck) = ck {
                                    let ghost cb = chunks@;
                                    self.take_node(node, content, Language::Go, ck, false, chunks, edges);
                                    assert(extends(old(chunks)@, chunks@)) by {
                                        assert forall|q: int| 0 <= q < old(chunks)@.len() implies #[trigger] chunks@[q] == old(chunks)@[q] by {
                                            assert(chunks@[q] == cb[q]);
                                        }
                                    }
                                }
                            }
                            j = j + 1;
                        }
                    }
                }
                i = i + 1;
            }
            return;
        }
        if text_eq(k, "import_declaration") {
            return;
        }
        let n = child_count(node);
        let mut i: usize = 0;
        while i < n
            invariant
                chunks_ok(chunks@, Language::Go, content@, self.max_lines),
                edges_ok(edges@, chunks@),
                extends(old(chunks)@, chunks@),
                fuel > 0,
            decreases n - i,
        {
            if let Some(c) = child_at(node, i) {
                let ghost cb = chunks@;
                self.go_nodes(&c, content, chunks, edges, fuel - 1);
                assert(extends(old(chunks)@, chunks@)) by {
                    assert forall|q: int| 0 <= q < old(chunks)@.len() implies #[trigger] chunks@[q] == old(chunks)@[q] by {
                        assert(chunks@[q] == cb[q]);
                    }
                }
            }
            i = i + 1;
        }
    }

    /// The block type of an HCL block: the text of its first identifier child.
    fn hcl_block_type(&self, node: &Node, content: &str) -> Option<String> {
        let n = child_count(node);
        let mut i: usize = 0;
        while i < n
            decreases n - i,
        {
            if let Some(c) = child_at(node, i) {
                if text_eq(kind_of(&c), "identifier") {
                    return node_text(&c, content);
                }
            }
            i = i + 1;
        }
        None
    }

    /// The labels of an HCL block without their quotes, joined by `.`.
    fn hcl_resource_name(&self, node: &Node, content: &str) -> Option<String> {
        let mut out: Vec<char> = Vec::new();
        let mut any = false;
        let n = child_count(node);
        let mut i: usize = 0;
        while i < n
            decreases n - i,
        {
            if let Some(c) = child_at(node, i) {
                if text_eq(kind_of(&c), "string_lit") {
                    if let Some(t) = node_text(&c, content) {
                        let cs = chars_of(t.as_str());
                        let mut a: usize = 0;
                        while a < cs.len() && cs[a] == '"'
                            invariant
                                a <= cs@.len(),
                            decreases cs.len() - a,
                        {
                            a = a + 1;
                        }
                        let mut b: usize = cs.len();
                        while b > a && cs[b - 1] == '"'
                            invariant
                                a <= b <= cs@.len(),
                            decreases b - a,
                        {
                            b = b - 1;
                        }
                        if any {
                            out.push('.');
                        }
                        let mut q: usize = a;
                        while q < b
                            invariant
                                a <= q,
                                b <= cs@.len(),
                            decreases b - q,
                        {
                            out.push(cs[q]);
                            q = q + 1;
                        }
                        any = true;
                    }
                }
            }
            i = i + 1;
        }
        if any {
            Some(string_of(&out))
        } else {
            None
        }
    }

    fn hcl_nodes(&self, node: &Node, content: &str, chunks: &mut Vec<Chunk>, edges: &mut Vec<Edge>, fuel: usize)
        requires
            chunks_ok(old(chunks)@, Language::Hcl, content@, self.max_lines),
            edges_ok(old(edges)@, old(chunks)@),
        ensures
            chunks_ok(final(chunks)@, Language::Hcl, content@, self.max_lines),
            edges_ok(final(edges)@, final(chunks)@),
            extends(old(chunks)@, final(chunks)@),
        decreases fuel,
    {
        assert(extends(chunks@, chunks@));
        if fuel == 0 {
            return;
        }
        if text_eq(kind_of(node), "block") {
            if let Some(bt) = self.hcl_block_type(node, content) {
                let b = bt.as_str();
                let kind = if text_eq(b, "resource") {
                    ChunkKind::Resource
                } else if text_eq(b, "data") {
                    ChunkKind::DataSource
                } else if text_eq(b, "variable") {
                    ChunkKind::Variable
                } else if text_eq(b, "output") {
                    ChunkKind::Output
                } else if text_eq(b, "module") {
                    ChunkKind::Module
                } else {
                    ChunkKind::Block
                };
                let symbol = self.hcl_resource_name(node, content);
                if let Some(text) = node_text(node, content) {
                    if crate::chunk::count_lines(text.as_str()) <= self.max_lines {
                        let c = Chunk::new(text, Language::Hcl, kind, symbol);
                        add_chunk(chunks, edges, c, Vec::new(), Ghost(Language::Hcl), Ghost(content@), Ghost(self.max_lines));
                    }
                }
            }
            return;
        }
        let n = child_count(node);
        let mut i: usize = 0;
        while i < n
            invariant
                chunks_ok(chunks@, Language::Hcl, content@, self.max_lines),
                edges_ok(edges@, chunks@),
                extends(old(chunks)@, chunks@),
                fuel > 0,
            decreases n - i,
        {
            if let Some(c) = child_at(node, i) {
                let ghost cb = chunks@;
                self.hcl_nodes(&c, content, chunks, edges, fuel - 1);
                assert(extends(old(chunks)@, chunks@)) by {
                    assert forall|q: int| 0 <= q < old(chunks)@.len() implies #[trigger] chunks@[q] == old(chunks)@[q] by {
                        assert(chunks@[q] == cb[q]);
                    }
                }
            }
            i = i + 1;
        }
    }
}

} // verus!
