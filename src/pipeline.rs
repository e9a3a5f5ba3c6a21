//! Decisions of the indexing pipeline: which files and directories are
//! walked, the text that is embedded for a chunk, and the whole-file
//! fallback chunk.
use crate::chunk::{Chunk, ChunkKind, Language};
use crate::text::{chars_of, string_of, text_eq};
use vstd::prelude::*;
use vstd::string::StringSliceAdditionalSpecFns;
use vstd::utf8::encode_utf8;

verus! {

/// Whether `ext` is the extension of a source file that is indexed.
pub open spec fn is_code_extension(ext: Seq<char>) -> bool {
    ext == "rs"@ || ext == "py"@ || ext == "ts"@ || ext == "tsx"@ || ext == "js"@ || ext == "jsx"@
        || ext == "mjs"@ || ext == "go"@ || ext == "java"@ || ext == "c"@ || ext == "cpp"@ || ext
        == "h"@ || ext == "hpp"@ || ext == "tf"@ || ext == "tfvars"@ || ext == "hcl"@
}

/// Whether a file with extension `ext` is indexed.
pub fn is_code_file(ext: &str) -> (r: bool)
    ensures
        r == is_code_extension(ext@),
{
    text_eq(ext, "rs") || text_eq(ext, "py") || text_eq(ext, "ts") || text_eq(ext, "tsx")
        || text_eq(ext, "js") || text_eq(ext, "jsx") || text_eq(ext, "mjs") || text_eq(ext, "go")
        || text_eq(ext, "java") || text_eq(ext, "c") || text_eq(ext, "cpp") || text_eq(ext, "h")
        || text_eq(ext, "hpp") || text_eq(ext, "tf") || text_eq(ext, "tfvars") || text_eq(ext, "hcl")
}

/// Whether an entry named `name` is hidden: it starts with `.` and is not `.` or `..`.
pub open spec fn is_hidden_entry(name: Seq<char>) -> bool {
    name.len() > 0 && name[0] == '.' && name != "."@ && name != ".."@
}

/// Whether an entry named `name` is hidden.
pub fn is_hidden(name: &str) -> (r: bool)
    ensures
        r == is_hidden_entry(name@),
{
    let cs = chars_of(name);
    cs.len() > 0 && cs[0] == '.' && !text_eq(name, ".") && !text_eq(name, "..")
}

/// Whether an entry named `name` is an ignored directory.
pub open spec fn is_ignored_entry(name: Seq<char>) -> bool {
    name == "node_modules"@ || name == "target"@ || name == "dist"@ || name == "build"@ || name
        == "__pycache__"@ || name == ".git"@ || name == "vendor"@ || name == ".venv"@ || name
        == "venv"@ || name == ".terraform"@
}

/// Whether an entry named `name` is an ignored directory.
pub fn is_ignored(name: &str) -> (r: bool)
    ensures
        r == is_ignored_entry(name@),
{
    text_eq(name, "node_modules") || text_eq(name, "target") || text_eq(name, "dist") || text_eq(
        name,
        "build",
    ) || text_eq(name, "__pycache__") || text_eq(name, ".git") || text_eq(name, "vendor")
        || text_eq(name, ".venv") || text_eq(name, "venv") || text_eq(name, ".terraform")
}

/// An optional text, or the empty text.
pub open spec fn text_or_empty(o: Option<String>) -> Seq<char> {
    match o {
        Some(s) => s@,
        None => Seq::empty(),
    }
}

/// The text embedded for a chunk: `"{symbol_name} {docstring}\n{content}"`,
/// an absent part being empty.
pub open spec fn embedding_text_of(c: Chunk) -> Seq<char> {
    text_or_empty(c.symbol_name) + seq![' '] + text_or_empty(c.docstring) + seq!['\n'] + c.content@
}

fn append(out: &mut Vec<char>, s: &str)
    ensures
        final(out)@ == old(out)@ + s@,
{
    let cs = chars_of(s);
    let mut i: usize = 0;
    while i < cs.len()
        invariant
            cs@ == s@,
            0 <= i <= cs@.len(),
            out@ == old(out)@ + cs@.subrange(0, i as int),
        decreases cs@.len() - i,
    {
        out.push(cs[i]);
        assert(out@ =~= old(out)@ + cs@.subrange(0, i as int + 1));
        i = i + 1;
    }
    assert(cs@.subrange(0, cs@.len() as int) =~= cs@);
}

/// The text embedded for a chunk.
pub fn embedding_text(c: &Chunk) -> (r: String)
    ensures
        r@ == embedding_text_of(*c),
{
    let mut out: Vec<char> = Vec::new();
    match &c.symbol_name {
        Some(s) => append(&mut out, s.as_str()),
        None => {},
    }
    out.push(' ');
    match &c.docstring {
        Some(d) => append(&mut out, d.as_str()),
        None => {},
    }
    out.push('\n');
    append(&mut out, c.content.as_str());
    assert(out@ =~= embedding_text_of(*c));
    string_of(&out)
}

/// Splits source files into chunks.
#[derive(Clone, Copy, Debug)]
pub struct ChunkExtractor {
    /// Largest chunk, in lines
    pub max_lines: usize,
}

impl ChunkExtractor {
    /// An extractor with chunks of at most 100 lines.
    pub fn new() -> (r: ChunkExtractor)
        ensures
            r.max_lines == 100,
    {
        ChunkExtractor { max_lines: 100 }
    }

    /// Set the largest chunk size in lines.
    pub fn with_max_lines(self, max_lines: usize) -> (r: ChunkExtractor)
        ensures
            r.max_lines == max_lines,
    {
        ChunkExtractor { max_lines }
    }

    /// The fallback for a language without a grammar: the whole file is one
    /// block chunk, with no edges.
    pub fn extract_fallback(&self, content: &str, language: Language) -> (r: (Vec<Chunk>, Vec<
        crate::chunk::Edge,
    >))
        ensures
            r.0@.len() == 1,
            r.0@[0].wf(),
            r.0@[0].content@ == content@,
            r.0@[0].language == language,
            r.0@[0].kind == ChunkKind::Block,
            r.0@[0].symbol_name is None,
            r.1@.len() == 0,
    {
        let c = Chunk::new(crate::text::text_of(content), language, ChunkKind::Block, None);
        let mut v: Vec<Chunk> = Vec::new();
        v.push(c);
        (v, Vec::new())
    }
}

/// The bytes `n` occur in `h` at position `p`.
pub open spec fn bytes_at(h: Seq<u8>, n: Seq<u8>, p: int) -> bool {
    0 <= p && p + n.len() <= h.len() && h.subrange(p, p + n.len()) == n
}

fn bytes_match_at(h: &[u8], n: &[u8], p: usize) -> (r: bool)
    requires
        p + n@.len() <= h@.len(),
    ensures
        r == bytes_at(h@, n@, p as int),
{
    let hl = h.len();
    let mut j: usize = 0;
    while j < n.len()
        invariant
            hl == h@.len(),
            p + n@.len() <= h@.len(),
            0 <= j <= n@.len(),
            forall|q: int| 0 <= q < j ==> h@[p + q] == n@[q],
        decreases n@.len() - j,
    {
        if h[p + j] != n[j] {
            assert(h@.subrange(p as int, p + n@.len())[j as int] != n@[j as int]);
            return false;
        }
        j = j + 1;
    }
    assert(h@.subrange(p as int, p + n@.len()) =~= n@);
    true
}

/// The first position at or after `from` where `n` occurs in `h`.
fn find_bytes(h: &[u8], n: &[u8], from: usize) -> (r: Option<usize>)
    ensures
        r matches Some(p) ==> from <= p && bytes_at(h@, n@, p as int) && forall|q: int|
            from <= q < p ==> !bytes_at(h@, n@, q),
        r is None ==> forall|q: int| from <= q ==> !bytes_at(h@, n@, q),
{
    if n.len() > h.len() || from > h.len() - n.len() {
        return None;
    }
    let last = h.len() - n.len();
    let mut p: usize = from;
    while p <= last
        invariant
            last == h@.len() - n@.len(),
            from <= p,
            p <= last + 1,
            forall|q: int| from <= q < p ==> !bytes_at(h@, n@, q),
        decreases last + 1 - p,
    {
        if bytes_match_at(h, n, p) {
            return Some(p);
        }
        if p == last {
            return None;
        }
        p = p + 1;
    }
    None
}

/// The byte offset of each chunk's text in the file: the first place at or
/// after the previous chunk's offset where it occurs, as the chunks of a file
/// come in order; `None` where it does not occur there.
pub fn chunk_offsets(content: &str, chunks: &Vec<Chunk>) -> (r: Vec<Option<usize>>)
    ensures
        r@.len() == chunks@.len(),
        forall|i: int|
            0 <= i < r@.len() ==> (#[trigger] r@[i] matches Some(p) ==> bytes_at(
                encode_utf8(content@),
                encode_utf8(chunks@[i].content@),
                p as int,
            )),
{
    let h = content.as_bytes();
    let mut out: Vec<Option<usize>> = Vec::new();
    let mut from: usize = 0;
    let mut i: usize = 0;
    while i < chunks.len()
        invariant
            h@ == encode_utf8(content@),
            0 <= i <= chunks@.len(),
            out@.len() == i,
            forall|k: int|
                0 <= k < i ==> (#[trigger] out@[k] matches Some(p) ==> bytes_at(
                    encode_utf8(content@),
                    encode_utf8(chunks@[k].content@),
                    p as int,
                )),
        decreases chunks@.len() - i,
    {
        let n = chunks[i].content.as_str().as_bytes();
        let found = find_bytes(h, n, from);
        if let Some(p) = found {
            from = p;
        }
        out.push(found);
        i = i + 1;
    }
    out
}

} // verus!
