//! The data model: chunks, edges, locations and modules.
use crate::content_hash::{sha256_of, ContentHash};
use crate::text::{chars_of, lower_of, string_of, text_eq, to_lowercase};
use vstd::prelude::*;
use vstd::utf8::encode_utf8;

verus! {

/// Programming language of a chunk.
#[derive(Clone, Copy, Debug, PartialEq, Eq, Hash, Structural)]
pub enum Language {
    Rust,
    Python,
    TypeScript,
    JavaScript,
    Go,
    Java,
    Hcl,
    Unknown,
}

/// The language that a lowercase extension or language name stands for.
pub open spec fn language_of_name(s: Seq<char>) -> Language {
    if s == "rs"@ || s == "rust"@ {
        Language::Rust
    } else if s == "py"@ || s == "pyi"@ || s == "python"@ {
        Language::Python
    } else if s == "ts"@ || s == "tsx"@ || s == "typescript"@ {
        Language::TypeScript
    } else if s == "js"@ || s == "jsx"@ || s == "mjs"@ || s == "javascript"@ {
        Language::JavaScript
    } else if s == "go"@ || s == "golang"@ {
        Language::Go
    } else if s == "java"@ {
        Language::Java
    } else if s == "tf"@ || s == "tfvars"@ || s == "hcl"@ || s == "terraform"@ {
        Language::Hcl
    } else {
        Language::Unknown
    }
}

/// The lowercase name of a language.
pub open spec fn language_name(l: Language) -> Seq<char> {
    match l {
        Language::Rust => "rust"@,
        Language::Python => "python"@,
        Language::TypeScript => "typescript"@,
        Language::JavaScript => "javascript"@,
        Language::Go => "go"@,
        Language::Java => "java"@,
        Language::Hcl => "hcl"@,
        Language::Unknown => "unknown"@,
    }
}

impl Language {
    /// The language of an already lowercase extension or language name.
    pub fn from_lowercase(s: &str) -> (r: Language)
        ensures
            r == language_of_name(s@),
    {
        if text_eq(s, "rs") || text_eq(s, "rust") {
            Language::Rust
        } else if text_eq(s, "py") || text_eq(s, "pyi") || text_eq(s, "python") {
            Language::Python
        } else if text_eq(s, "ts") || text_eq(s, "tsx") || text_eq(s, "typescript") {
            Language::TypeScript
        } else if text_eq(s, "js") || text_eq(s, "jsx") || text_eq(s, "mjs") || text_eq(
            s,
            "javascript",
        ) {
            Language::JavaScript
        } else if text_eq(s, "go") || text_eq(s, "golang") {
            Language::Go
        } else if text_eq(s, "java") {
            Language::Java
        } else if text_eq(s, "tf") || text_eq(s, "tfvars") || text_eq(s, "hcl") || text_eq(
            s,
            "terraform",
        ) {
            Language::Hcl
        } else {
            Language::Unknown
        }
    }

    /// Detect a language from a file extension or language name, in any case.
    pub fn from_str(s: &str) -> (r: Language)
        ensures
            r == language_of_name(lower_of(s@)),
    {
        let lowered = to_lowercase(s);
        Language::from_lowercase(lowered.as_str())
    }

    /// Detect a language from a file extension.
    pub fn from_extension(ext: &str) -> (r: Language)
        ensures
            r == language_of_name(lower_of(ext@)),
    {
        Language::from_str(ext)
    }

    /// The language name.
    pub fn as_str(&self) -> (r: &'static str)
        ensures
            r@ == language_name(*self),
    {
        match self {
            Language::Rust => "rust",
            Language::Python => "python",
            Language::TypeScript => "typescript",
            Language::JavaScript => "javascript",
            Language::Go => "go",
            Language::Java => "java",
            Language::Hcl => "hcl",
            Language::Unknown => "unknown",
        }
    }
}

/// Kind of code chunk.
#[derive(Clone, Copy, Debug, PartialEq, Eq, Hash, Structural)]
pub enum ChunkKind {
    /// Function or method definition
    Function,
    /// Class definition
    Class,
    /// Struct definition
    Struct,
    /// Trait or interface definition
    Trait,
    /// Enum definition
    Enum,
    /// Module or namespace
    Module,
    /// Implementation block
    Impl,
    /// Top-level code block
    Block,
    /// Terraform / HCL resource
    Resource,
    /// Terraform / HCL data source
    DataSource,
    /// Terraform / HCL variable
    Variable,
    /// Terraform / HCL output
    Output,
}

/// The number of `'\n'` characters in `s`.
pub open spec fn newline_count(s: Seq<char>) -> nat
    decreases s.len(),
{
    if s.len() == 0 {
        0
    } else {
        newline_count(s.drop_last()) + if s.last() == '\n' {
            1nat
        } else {
            0nat
        }
    }
}

proof fn lemma_newline_count_bound(s: Seq<char>)
    ensures
        newline_count(s) <= s.len(),
    decreases s.len(),
{
    if s.len() > 0 {
        lemma_newline_count_bound(s.drop_last());
    }
}

/// The number of lines of `s`, counted as `str::lines` does: a final line
/// terminator does not start another line.
pub open spec fn line_count_of(s: Seq<char>) -> nat {
    if s.len() == 0 {
        0
    } else if s.last() == '\n' {
        newline_count(s)
    } else {
        newline_count(s) + 1
    }
}

/// The number of lines of `s`.
pub fn count_lines(s: &str) -> (r: usize)
    ensures
        r == line_count_of(s@),
{
    let cs = chars_of(s);
    let mut n: usize = 0;
    let mut i: usize = 0;
    while i < cs.len()
        invariant
            cs@ == s@,
            0 <= i <= cs@.len(),
            n == newline_count(cs@.subrange(0, i as int)),
            n <= i,
        decreases cs@.len() - i,
    {
        assert(cs@.subrange(0, i as int + 1).drop_last() =~= cs@.subrange(0, i as int));
        if cs[i] == '\n' {
            n = n + 1;
        }
        i = i + 1;
    }
    assert(cs@.subrange(0, cs@.len() as int) =~= cs@);
    if cs.len() > 0 {
        proof {
            lemma_newline_count_bound(cs@.drop_last());
        }
    }
    if cs.len() == 0 || cs[cs.len() - 1] == '\n' {
        n
    } else {
        n + 1
    }
}

/// A chunk of code with its metadata.
#[derive(Clone, Debug)]
pub struct Chunk {
    /// Content hash (unique identifier)
    pub content_hash: ContentHash,
    /// The source code
    pub content: String,
    /// Programming language
    pub language: Language,
    /// Kind of chunk
    pub kind: ChunkKind,
    /// Symbol name (function name, class name, ...)
    pub symbol_name: Option<String>,
    /// Full signature if known
    pub signature: Option<String>,
    /// Docstring or comment
    pub docstring: Option<String>,
    /// Size of the content in bytes
    pub byte_size: usize,
    /// First line (1-indexed)
    pub line_start: usize,
    /// Last line (1-indexed)
    pub line_end: usize,
    /// Number of lines
    pub line_count: usize,
    /// Identifier of the containing module
    pub module_id: Option<String>,
}

impl Chunk {
    /// The chunk's content hash is the digest of its content, its size is
    /// the content's length in bytes, and its line range is ordered.
    pub open spec fn wf(&self) -> bool {
        &&& self.content_hash@ == sha256_of(encode_utf8(self.content@))
        &&& self.byte_size == encode_utf8(self.content@).len()
        &&& self.line_start <= self.line_end
    }

    /// Create a chunk from its content.
    pub fn new(
        content: String,
        language: Language,
        kind: ChunkKind,
        symbol_name: Option<String>,
    ) -> (r: Chunk)
        ensures
            r.wf(),
            r.content@ == content@,
            r.content_hash@ == sha256_of(encode_utf8(content@)),
            r.language == language,
            r.kind == kind,
            r.symbol_name == symbol_name,
            r.signature is None,
            r.docstring is None,
            r.byte_size == encode_utf8(content@).len(),
            r.line_start == 0,
            r.line_end == 0,
            r.line_count == line_count_of(content@),
            r.module_id is None,
    {
        let byte_size = content.as_str().as_bytes().len();
        let line_count = count_lines(content.as_str());
        let content_hash = ContentHash::from_content(content.as_str().as_bytes());
        Chunk {
            content_hash,
            content,
            language,
            kind,
            symbol_name,
            signature: None,
            docstring: None,
            byte_size,
            line_start: 0,
            line_end: 0,
            line_count,
            module_id: None,
        }
    }

    /// Set the line range.
    pub fn with_line_range(self, start: usize, end: usize) -> (r: Chunk)
        requires
            start <= end,
        ensures
            r == (Chunk { line_start: start, line_end: end, ..self }),
    {
        let mut c = self;
        c.line_start = start;
        c.line_end = end;
        c
    }

    /// Set the signature.
    pub fn with_signature(self, signature: String) -> (r: Chunk)
        ensures
            r == (Chunk { signature: Some(signature), ..self }),
    {
        let mut c = self;
        c.signature = Some(signature);
        c
    }

    /// Set the docstring.
    pub fn with_docstring(self, docstring: String) -> (r: Chunk)
        ensures
            r == (Chunk { docstring: Some(docstring), ..self }),
    {
        let mut c = self;
        c.docstring = Some(docstring);
        c
    }

    /// Set the module identifier.
    pub fn with_module_id(self, module_id: String) -> (r: Chunk)
        ensures
            r == (Chunk { module_id: Some(module_id), ..self }),
    {
        let mut c = self;
        c.module_id = Some(module_id);
        c
    }
}

/// Type of project or module.
#[derive(Clone, Copy, Debug, PartialEq, Eq, Hash, Structural)]
pub enum ProjectType {
    /// Rust workspace (`[workspace]` in Cargo.toml)
    Workspace,
    /// Rust crate (Cargo.toml)
    Crate,
    /// Python package (pyproject.toml, setup.py, setup.cfg)
    Package,
    /// JavaScript / TypeScript project (package.json)
    NpmPackage,
    /// Go module (go.mod)
    GoModule,
    /// Java project (pom.xml, build.gradle)
    JavaProject,
    /// Terraform root module
    TerraformModule,
    /// Plain directory
    Directory,
}

/// The stored name of a project type.
pub open spec fn project_type_name(t: ProjectType) -> Seq<char> {
    match t {
        ProjectType::Workspace => "workspace"@,
        ProjectType::Crate => "crate"@,
        ProjectType::Package => "package"@,
        ProjectType::NpmPackage => "npm_package"@,
        ProjectType::GoModule => "go_module"@,
        ProjectType::JavaProject => "java_project"@,
        ProjectType::TerraformModule => "terraform_module"@,
        ProjectType::Directory => "directory"@,
    }
}

/// The project type that a stored name stands for; any other name is a directory.
pub open spec fn project_type_of_name(s: Seq<char>) -> ProjectType {
    if s == "workspace"@ {
        ProjectType::Workspace
    } else if s == "crate"@ {
        ProjectType::Crate
    } else if s == "package"@ {
        ProjectType::Package
    } else if s == "npm_package"@ {
        ProjectType::NpmPackage
    } else if s == "go_module"@ {
        ProjectType::GoModule
    } else if s == "java_project"@ {
        ProjectType::JavaProject
    } else if s == "terraform_module"@ {
        ProjectType::TerraformModule
    } else {
        ProjectType::Directory
    }
}

impl ProjectType {
    /// The stored name of the type.
    pub fn as_str(&self) -> (r: &'static str)
        ensures
            r@ == project_type_name(*self),
    {
        match self {
            ProjectType::Workspace => "workspace",
            ProjectType::Crate => "crate",
            ProjectType::Package => "package",
            ProjectType::NpmPackage => "npm_package",
            ProjectType::GoModule => "go_module",
            ProjectType::JavaProject => "java_project",
            ProjectType::TerraformModule => "terraform_module",
            ProjectType::Directory => "directory",
        }
    }

    /// The type for a stored name.
    pub fn from_str(s: &str) -> (r: ProjectType)
        ensures
            r == project_type_of_name(s@),
    {
        if text_eq(s, "workspace") {
            ProjectType::Workspace
        } else if text_eq(s, "crate") {
            ProjectType::Crate
        } else if text_eq(s, "package") {
            ProjectType::Package
        } else if text_eq(s, "npm_package") {
            ProjectType::NpmPackage
        } else if text_eq(s, "go_module") {
            ProjectType::GoModule
        } else if text_eq(s, "java_project") {
            ProjectType::JavaProject
        } else if text_eq(s, "terraform_module") {
            ProjectType::TerraformModule
        } else {
            ProjectType::Directory
        }
    }
}

/// Whether `c` separates path components.
pub open spec fn is_path_separator(c: char) -> bool {
    c == '/' || c == '\\'
}

/// A relative path with each separator replaced by `::`.
pub open spec fn path_to_id(p: Seq<char>) -> Seq<char>
    decreases p.len(),
{
    if p.len() == 0 {
        Seq::empty()
    } else if is_path_separator(p.last()) {
        path_to_id(p.drop_last()) + seq![':', ':']
    } else {
        path_to_id(p.drop_last()).push(p.last())
    }
}

/// Replace each path separator of `p` by `::`.
pub fn path_id(p: &str) -> (r: String)
    ensures
        r@ == path_to_id(p@),
{
    let cs = chars_of(p);
    let mut out: Vec<char> = Vec::new();
    let mut i: usize = 0;
    while i < cs.len()
        invariant
            cs@ == p@,
            0 <= i <= cs@.len(),
            out@ == path_to_id(cs@.subrange(0, i as int)),
        decreases cs@.len() - i,
    {
        assert(cs@.subrange(0, i as int + 1).drop_last() =~= cs@.subrange(0, i as int));
        let c = cs[i];
        if c == '/' || c == '\\' {
            out.push(':');
            out.push(':');
            assert(out@ =~= path_to_id(cs@.subrange(0, i as int)) + seq![':', ':']);
        } else {
            out.push(c);
        }
        i = i + 1;
    }
    assert(cs@.subrange(0, cs@.len() as int) =~= cs@);
    string_of(&out)
}

/// A module or project detected in the indexed tree.
#[derive(Clone, Debug)]
pub struct Module {
    /// Unique identifier, derived from the path
    pub id: String,
    /// Display name
    pub name: String,
    /// Path relative to the index root
    pub path: String,
    /// Primary language
    pub language: Language,
    /// Type of project
    pub project_type: ProjectType,
    /// Identifier of the enclosing module
    pub parent_id: Option<String>,
}

impl Module {
    /// Create a module whose identifier is its path with separators turned into `::`.
    pub fn new(name: String, path: String, language: Language, project_type: ProjectType) -> (r:
        Module)
        ensures
            r.id@ == path_to_id(path@),
            r.name == name,
            r.path == path,
            r.language == language,
            r.project_type == project_type,
            r.parent_id is None,
    {
        let id = path_id(path.as_str());
        Module { id, name, path, language, project_type, parent_id: None }
    }

    /// Set the parent module identifier.
    pub fn with_parent(self, parent_id: String) -> (r: Module)
        ensures
            r == (Module { parent_id: Some(parent_id), ..self }),
    {
        let mut m = self;
        m.parent_id = Some(parent_id);
        m
    }
}

/// Where a chunk has been seen.
#[derive(Clone, Debug)]
pub struct ChunkLocation {
    /// Content hash of the chunk
    pub content_hash: ContentHash,
    /// File path relative to the repository root
    pub file_path: String,
    /// First byte offset
    pub byte_start: usize,
    /// End byte offset
    pub byte_end: usize,
    /// First line (1-indexed)
    pub line_start: usize,
    /// Last line (1-indexed)
    pub line_end: usize,
    /// Commit at which the location was recorded
    pub commit_hash: Option<String>,
    /// Author of the code
    pub author: Option<String>,
    /// Time of the last change
    pub timestamp: Option<String>,
}

impl ChunkLocation {
    /// Create a location without attribution.
    pub fn new(
        content_hash: ContentHash,
        file_path: String,
        byte_start: usize,
        byte_end: usize,
        line_start: usize,
        line_end: usize,
    ) -> (r: ChunkLocation)
        ensures
            r == (ChunkLocation {
                content_hash,
                file_path,
                byte_start,
                byte_end,
                line_start,
                line_end,
                commit_hash: None,
                author: None,
                timestamp: None,
            }),
    {
        ChunkLocation {
            content_hash,
            file_path,
            byte_start,
            byte_end,
            line_start,
            line_end,
            commit_hash: None,
            author: None,
            timestamp: None,
        }
    }

    /// Set the commit.
    pub fn with_commit(self, commit_hash: String) -> (r: ChunkLocation)
        ensures
            r == (ChunkLocation { commit_hash: Some(commit_hash), ..self }),
    {
        let mut l = self;
        l.commit_hash = Some(commit_hash);
        l
    }

    /// Set the author.
    pub fn with_author(self, author: String) -> (r: ChunkLocation)
        ensures
            r == (ChunkLocation { author: Some(author), ..self }),
    {
        let mut l = self;
        l.author = Some(author);
        l
    }

    /// Set the timestamp.
    pub fn with_timestamp(self, timestamp: String) -> (r: ChunkLocation)
        ensures
            r == (ChunkLocation { timestamp: Some(timestamp), ..self }),
    {
        let mut l = self;
        l.timestamp = Some(timestamp);
        l
    }
}

/// Kind of relationship between code elements.
#[derive(Clone, Copy, Debug, PartialEq, Eq, Hash, Structural)]
pub enum EdgeKind {
    /// Function or method call
    Calls,
    /// Module or file import
    Imports,
    /// Reference to a symbol
    References,
}

/// The stored name of an edge kind.
pub open spec fn edge_kind_name(k: EdgeKind) -> Seq<char> {
    match k {
        EdgeKind::Calls => "calls"@,
        EdgeKind::Imports => "imports"@,
        EdgeKind::References => "references"@,
    }
}

impl EdgeKind {
    /// The stored name of the kind.
    pub fn as_str(&self) -> (r: &'static str)
        ensures
            r@ == edge_kind_name(*self),
    {
        match self {
            EdgeKind::Calls => "calls",
            EdgeKind::Imports => "imports",
            EdgeKind::References => "references",
        }
    }
}

/// A directed reference from a chunk to a symbol identifier.
#[derive(Clone, Debug)]
pub struct Edge {
    /// Content hash of the source chunk
    pub source_hash: ContentHash,
    /// Identifier of the target, such as `GitRepository::open`
    pub target_query: String,
    /// Kind of relationship
    pub kind: EdgeKind,
    /// Line of the reference in the source file
    pub line_number: Option<usize>,
}

impl Edge {
    /// Create an edge without a line number.
    pub fn new(source_hash: ContentHash, target_query: String, kind: EdgeKind) -> (r: Edge)
        ensures
            r == (Edge { source_hash, target_query, kind, line_number: None }),
    {
        Edge { source_hash, target_query, kind, line_number: None }
    }

    /// Set the line number.
    pub fn with_line(self, line: usize) -> (r: Edge)
        ensures
            r == (Edge { line_number: Some(line), ..self }),
    {
        let mut e = self;
        e.line_number = Some(line);
        e
    }
}

} // verus!
