//! Detection of projects and modules from the marker files of each directory.
use crate::chunk::{is_path_separator, path_to_id, Language, Module, ProjectType};
use crate::query::opt_text;
use crate::text::{
    chars_of, contains_chars, contains_seq, find_char, has_prefix, lines_of, slice_chars,
    split_lines, starts_with, string_of, text_eq, text_of, trim, trim_chars,
};
use crate::store::{keys_unique, lemma_put_all_push, lemma_seq_map_update, put_all, seq_map};
use vstd::prelude::*;

verus! {

/// The first position at or after `from` where `s` holds `c`.
pub open spec fn first_from(s: Seq<char>, c: char, from: int) -> Option<int>
    decreases s.len() - from,
{
    if from < 0 || from >= s.len() {
        None
    } else if s[from] == c {
        Some(from)
    } else {
        first_from(s, c, from + 1)
    }
}

proof fn lemma_first_from(s: Seq<char>, c: char, from: int, r: Option<usize>)
    requires
        0 <= from <= s.len(),
        match r {
            Some(i) => from <= i < s.len() && s[i as int] == c && forall|k: int|
                from <= k < i ==> s[k] != c,
            None => forall|k: int| from <= k < s.len() ==> s[k] != c,
        },
    ensures
        first_from(s, c, from) == match r {
            Some(i) => Some(i as int),
            None => None::<int>,
        },
    decreases s.len() - from,
{
    if from < s.len() {
        match r {
            Some(i) => {
                if i as int != from {
                    lemma_first_from(s, c, from + 1, r);
                }
            },
            None => {
                lemma_first_from(s, c, from + 1, r);
            },
        }
    }
}

fn find(s: &Vec<char>, c: char, from: usize) -> (r: Option<usize>)
    requires
        from <= s@.len(),
    ensures
        first_from(s@, c, from as int) == match r {
            Some(i) => Some(i as int),
            None => None::<int>,
        },
        r matches Some(i) ==> from <= i < s@.len(),
{
    let r = find_char(s, c, from);
    proof {
        lemma_first_from(s@, c, from as int, r);
    }
    r
}

/// The text between the first two double quotes of `t`.
pub open spec fn quoted_value(t: Seq<char>) -> Option<Seq<char>> {
    match first_from(t, '"', 0) {
        Some(a) => match first_from(t, '"', a + 1) {
            Some(b) => Some(t.subrange(a + 1, b)),
            None => None,
        },
        None => None,
    }
}

fn quoted(t: &Vec<char>) -> (r: Option<Vec<char>>)
    ensures
        match quoted_value(t@) {
            Some(v) => r matches Some(x) && x@ == v,
            None => r is None,
        },
{
    let n = t.len();
    match find(t, '"', 0) {
        Some(a) => match find(t, '"', a + 1) {
            Some(b) => Some(slice_chars(t, a + 1, b)),
            None => None,
        },
        None => None,
    }
}

/// The value of `key = "value"` (or `key="value"`) on a TOML line.
pub open spec fn toml_line_value(line: Seq<char>, key: Seq<char>) -> Option<Seq<char>> {
    let t = trim(line);
    if starts_with(t, key + " ="@) || starts_with(t, key + "="@) {
        quoted_value(t)
    } else {
        None
    }
}

/// The first value of `key` on the lines `lines[i..]`.
pub open spec fn toml_value_from(lines: Seq<Seq<char>>, key: Seq<char>, i: int) -> Option<
    Seq<char>,
>
    decreases lines.len() - i,
{
    if i < 0 || i >= lines.len() {
        None
    } else {
        match toml_line_value(lines[i], key) {
            Some(v) => Some(v),
            None => toml_value_from(lines, key, i + 1),
        }
    }
}

/// The value of `key` in TOML text, by a scan of its lines.
pub open spec fn toml_value(content: Seq<char>, key: Seq<char>) -> Option<Seq<char>> {
    toml_value_from(lines_of(content), key, 0)
}

/// The value of `"key": "value"` on a JSON line.
pub open spec fn json_line_value(line: Seq<char>, key: Seq<char>) -> Option<Seq<char>> {
    if contains_seq(line, seq!['"'] + key + seq!['"']) {
        match first_from(line, ':', 0) {
            Some(c) => quoted_value(line.subrange(c + 1, line.len() as int)),
            None => None,
        }
    } else {
        None
    }
}

/// The first value of `key` on the lines `lines[i..]`.
pub open spec fn json_value_from(lines: Seq<Seq<char>>, key: Seq<char>, i: int) -> Option<
    Seq<char>,
>
    decreases lines.len() - i,
{
    if i < 0 || i >= lines.len() {
        None
    } else {
        match json_line_value(lines[i], key) {
            Some(v) => Some(v),
            None => json_value_from(lines, key, i + 1),
        }
    }
}

/// The value of `key` in JSON text, by a scan of its lines.
pub open spec fn json_value(content: Seq<char>, key: Seq<char>) -> Option<Seq<char>> {
    json_value_from(lines_of(content), key, 0)
}

fn concat_chars(a: &Vec<char>, b: &Vec<char>) -> (r: Vec<char>)
    ensures
        r@ == a@ + b@,
{
    let mut r = a.clone();
    let mut i: usize = 0;
    while i < b.len()
        invariant
            0 <= i <= b@.len(),
            r@ == a@ + b@.subrange(0, i as int),
        decreases b@.len() - i,
    {
        r.push(b[i]);
        assert(r@ =~= a@ + b@.subrange(0, i as int + 1));
        i = i + 1;
    }
    assert(b@.subrange(0, b@.len() as int) =~= b@);
    r
}

/// Extract the value of `key` from TOML text: the quoted value of the first
/// line that, once trimmed, starts with `key =` or `key=` and holds a quoted value.
pub fn extract_toml_value(content: &str, key: &str) -> (r: Option<String>)
    ensures
        opt_text(r) == toml_value(content@, key@),
{
    let lines = split_lines(content);
    let ghost ls = lines_of(content@);
    let k = chars_of(key);
    let spaced = concat_chars(&k, &chars_of(" ="));
    let tight = concat_chars(&k, &chars_of("="));
    let mut i: usize = 0;
    while i < lines.len()
        invariant
            ls == lines_of(content@),
            lines@.len() == ls.len(),
            forall|j: int| 0 <= j < lines@.len() ==> (#[trigger] lines@[j])@ == ls[j],
            k@ == key@,
            spaced@ == key@ + " ="@,
            tight@ == key@ + "="@,
            0 <= i <= lines@.len(),
            toml_value_from(ls, key@, 0) == toml_value_from(ls, key@, i as int),
        decreases lines@.len() - i,
    {
        let t = trim_chars(&lines[i]);
        if has_prefix(&t, &spaced) || has_prefix(&t, &tight) {
            match quoted(&t) {
                Some(v) => {
                    assert(toml_line_value(ls[i as int], key@) == Some(v@));
                    assert(toml_value_from(ls, key@, i as int) == Some(v@));
                    return Some(string_of(&v));
                },
                None => {},
            }
        }
        i = i + 1;
    }
    None
}

/// Extract the value of `key` from JSON text: the quoted value after the
/// first `:` of the first line that holds `"key"` and such a value.
pub fn extract_json_value(content: &str, key: &str) -> (r: Option<String>)
    ensures
        opt_text(r) == json_value(content@, key@),
{
    let lines = split_lines(content);
    let ghost ls = lines_of(content@);
    let quote = chars_of("\"");
    proof {
        reveal_strlit("\"");
    }
    let pattern = concat_chars(&concat_chars(&quote, &chars_of(key)), &quote);
    assert(pattern@ =~= seq!['"'] + key@ + seq!['"']);
    let mut i: usize = 0;
    while i < lines.len()
        invariant
            ls == lines_of(content@),
            lines@.len() == ls.len(),
            forall|j: int| 0 <= j < lines@.len() ==> (#[trigger] lines@[j])@ == ls[j],
            pattern@ == seq!['"'] + key@ + seq!['"'],
            0 <= i <= lines@.len(),
            json_value_from(ls, key@, 0) == json_value_from(ls, key@, i as int),
        decreases lines@.len() - i,
    {
        let line = &lines[i];
        let ll = line.len();
        if contains_chars(line, &pattern) {
            match find(line, ':', 0) {
                Some(c) => {
                    let rest = slice_chars(line, c + 1, ll);
                    match quoted(&rest) {
                        Some(v) => {
                            assert(json_line_value(ls[i as int], key@) == Some(v@));
                            assert(json_value_from(ls, key@, i as int) == Some(v@));
                            return Some(string_of(&v));
                        },
                        None => {},
                    }
                },
                None => {},
            }
        }
        i = i + 1;
    }
    None
}

/// Whether the directory walk skips a directory named `name`: hidden
/// directories (but `.` and `..`) and build, dependency and tool directories.
pub open spec fn is_skipped_dir(name: Seq<char>) -> bool {
    (name.len() > 0 && name[0] == '.' && name != "."@ && name != ".."@) || name
        == "node_modules"@ || name == "target"@ || name == ".git"@ || name == "__pycache__"@
        || name == "venv"@ || name == ".venv"@ || name == "vendor"@ || name == "dist"@ || name
        == "build"@ || name == ".terraform"@
}

/// Whether the directory walk skips a directory named `name`.
pub fn should_skip_dir(name: &str) -> (r: bool)
    ensures
        r == is_skipped_dir(name@),
{
    let cs = chars_of(name);
    if cs.len() > 0 && cs[0] == '.' && !text_eq(name, ".") && !text_eq(name, "..") {
        return true;
    }
    text_eq(name, "node_modules") || text_eq(name, "target") || text_eq(name, ".git") || text_eq(
        name,
        "__pycache__",
    ) || text_eq(name, "venv") || text_eq(name, ".venv") || text_eq(name, "vendor") || text_eq(
        name,
        "dist",
    ) || text_eq(name, "build") || text_eq(name, ".terraform")
}

/// `s` without all leading repetitions of `p`.
pub open spec fn strip_all_prefix(s: Seq<char>, p: Seq<char>) -> Seq<char>
    decreases s.len(),
{
    if p.len() > 0 && starts_with(s, p) {
        strip_all_prefix(s.subrange(p.len() as int, s.len() as int), p)
    } else {
        s
    }
}

/// The module name of the first `module ...` line of `lines[i..]`.
pub open spec fn go_module_from(lines: Seq<Seq<char>>, i: int) -> Option<Seq<char>>
    decreases lines.len() - i,
{
    if i < 0 || i >= lines.len() {
        None
    } else if starts_with(lines[i], "module "@) {
        Some(trim(strip_all_prefix(lines[i], "module "@)))
    } else {
        go_module_from(lines, i + 1)
    }
}

fn strip_all(s: &Vec<char>, p: &Vec<char>) -> (r: Vec<char>)
    ensures
        r@ == strip_all_prefix(s@, p@),
    decreases s@.len(),
{
    if p.len() > 0 && has_prefix(s, p) {
        let rest = slice_chars(s, p.len(), s.len());
        strip_all(&rest, p)
    } else {
        s.clone()
    }
}

/// The module path of a `go.mod` file: the rest of its first line that
/// starts with `module `.
pub fn extract_go_module(content: &str) -> (r: Option<String>)
    ensures
        opt_text(r) == go_module_from(lines_of(content@), 0),
{
    let lines = split_lines(content);
    let ghost ls = lines_of(content@);
    let prefix = chars_of("module ");
    let mut i: usize = 0;
    while i < lines.len()
        invariant
            ls == lines_of(content@),
            lines@.len() == ls.len(),
            forall|j: int| 0 <= j < lines@.len() ==> (#[trigger] lines@[j])@ == ls[j],
            prefix@ == "module "@,
            0 <= i <= lines@.len(),
            go_module_from(ls, 0) == go_module_from(ls, i as int),
        decreases lines@.len() - i,
    {
        if has_prefix(&lines[i], &prefix) {
            let v = trim_chars(&strip_all(&lines[i], &prefix));
            assert(go_module_from(ls, i as int) == Some(v@));
            return Some(string_of(&v));
        }
        i = i + 1;
    }
    None
}

/// What the walk saw of one directory: its path relative to the root (empty
/// for the root), its name, the path of its parent directory, the names of its
/// entries, and the text of the marker files that are read.
#[derive(Clone, Debug)]
pub struct DirInfo {
    pub path: String,
    pub name: Option<String>,
    pub parent_path: Option<String>,
    pub entries: Vec<String>,
    pub cargo_toml: Option<String>,
    pub package_json: Option<String>,
    pub go_mod: Option<String>,
}

/// The directory has an entry named `n`.
pub open spec fn has_entry(d: DirInfo, n: Seq<char>) -> bool {
    exists|i: int| 0 <= i < d.entries@.len() && (#[trigger] d.entries@[i])@ == n
}

/// `n` is a file name with extension `tf`.
pub open spec fn is_tf_name(n: Seq<char>) -> bool {
    n.len() >= 4 && n.subrange(n.len() - 3, n.len() as int) == ".tf"@
}

/// A found name, or else the directory's own name.
pub open spec fn or_dir_name(v: Option<Seq<char>>, d: DirInfo) -> Option<Seq<char>> {
    match v {
        Some(x) => Some(x),
        None => opt_text(d.name),
    }
}

/// A project found in a directory: its name, language and type.
pub open spec fn found(n: Option<Seq<char>>, l: Language, t: ProjectType) -> Option<
    (Seq<char>, Language, ProjectType),
> {
    match n {
        Some(x) => Some((x, l, t)),
        None => None,
    }
}

/// A Rust crate or workspace (Cargo.toml), or a Rust sub-module (mod.rs, lib.rs).
pub open spec fn rust_project(d: DirInfo) -> Option<(Seq<char>, Language, ProjectType)> {
    if has_entry(d, "Cargo.toml"@) {
        match d.cargo_toml {
            Some(c) => found(
                or_dir_name(toml_value(c@, "name"@), d),
                Language::Rust,
                if contains_seq(c@, "[workspace]"@) {
                    ProjectType::Workspace
                } else {
                    ProjectType::Crate
                },
            ),
            None => None,
        }
    } else if has_entry(d, "mod.rs"@) || has_entry(d, "lib.rs"@) {
        found(opt_text(d.name), Language::Rust, ProjectType::Directory)
    } else {
        None
    }
}

/// A Python package (pyproject.toml, setup.py, setup.cfg) or sub-package (__init__.py).
pub open spec fn python_project(d: DirInfo) -> Option<(Seq<char>, Language, ProjectType)> {
    if has_entry(d, "pyproject.toml"@) || has_entry(d, "setup.py"@) || has_entry(d, "setup.cfg"@) {
        found(opt_text(d.name), Language::Python, ProjectType::Package)
    } else if has_entry(d, "__init__.py"@) {
        found(opt_text(d.name), Language::Python, ProjectType::Directory)
    } else {
        None
    }
}

/// A Node project (package.json), TypeScript where tsconfig.json is present.
pub open spec fn node_project(d: DirInfo) -> Option<(Seq<char>, Language, ProjectType)> {
    if has_entry(d, "package.json"@) {
        match d.package_json {
            Some(c) => found(
                or_dir_name(json_value(c@, "name"@), d),
                if has_entry(d, "tsconfig.json"@) {
                    Language::TypeScript
                } else {
                    Language::JavaScript
                },
                ProjectType::NpmPackage,
            ),
            None => None,
        }
    } else {
        None
    }
}

/// A Go module (go.mod), named by its `module` line.
pub open spec fn go_project(d: DirInfo) -> Option<(Seq<char>, Language, ProjectType)> {
    if has_entry(d, "go.mod"@) {
        match d.go_mod {
            Some(c) => found(
                or_dir_name(go_module_from(lines_of(c@), 0), d),
                Language::Go,
                ProjectType::GoModule,
            ),
            None => None,
        }
    } else {
        None
    }
}

/// A Java project (pom.xml, build.gradle, build.gradle.kts).
pub open spec fn java_project(d: DirInfo) -> Option<(Seq<char>, Language, ProjectType)> {
    if has_entry(d, "pom.xml"@) || has_entry(d, "build.gradle"@) || has_entry(
        d,
        "build.gradle.kts"@,
    ) {
        found(opt_text(d.name), Language::Java, ProjectType::JavaProject)
    } else {
        None
    }
}

/// A Terraform module (any `*.tf` entry).
pub open spec fn terraform_project(d: DirInfo) -> Option<(Seq<char>, Language, ProjectType)> {
    if exists|i: int| 0 <= i < d.entries@.len() && is_tf_name(#[trigger] d.entries@[i]@) {
        found(opt_text(d.name), Language::Hcl, ProjectType::TerraformModule)
    } else {
        None
    }
}

/// The first project kind, in order of precedence, that the directory's markers show.
pub open spec fn detected_project(d: DirInfo) -> Option<(Seq<char>, Language, ProjectType)> {
    if rust_project(d) is Some {
        rust_project(d)
    } else if python_project(d) is Some {
        python_project(d)
    } else if node_project(d) is Some {
        node_project(d)
    } else if go_project(d) is Some {
        go_project(d)
    } else if java_project(d) is Some {
        java_project(d)
    } else {
        terraform_project(d)
    }
}

/// The module identifier of a relative path: `root` for the root, else the
/// path with separators turned into `::`.
pub open spec fn module_id_of(p: Seq<char>) -> Seq<char> {
    if p.len() == 0 {
        "root"@
    } else {
        path_to_id(p)
    }
}

/// `m` is the module that the walk makes of directory `d`.
#[verifier::opaque]
pub open spec fn module_of_dir(m: Module, d: DirInfo) -> bool {
    &&& m.id@ == module_id_of(d.path@)
    &&& m.path@ == d.path@
    &&& match detected_project(d) {
        Some((n, l, t)) => m.name@ == n && m.language == l && m.project_type == t,
        None => m.name@ == (if d.path@.len() == 0 {
            "root"@
        } else {
            match d.name {
                Some(x) => x@,
                None => "dir"@,
            }
        }) && m.language == Language::Unknown && m.project_type == ProjectType::Directory,
    }
    &&& opt_text(m.parent_id) == match d.parent_path {
        Some(pp) => if module_id_of(pp@) != module_id_of(d.path@) {
            Some(module_id_of(pp@))
        } else {
            None
        },
        None => None,
    }
}

fn entry_named(d: &DirInfo, n: &str) -> (r: bool)
    ensures
        r == has_entry(*d, n@),
{
    let mut i: usize = 0;
    while i < d.entries.len()
        invariant
            0 <= i <= d.entries@.len(),
            forall|j: int| 0 <= j < i ==> (#[trigger] d.entries@[j])@ != n@,
        decreases d.entries@.len() - i,
    {
        if text_eq(d.entries[i].as_str(), n) {
            return true;
        }
        i = i + 1;
    }
    false
}

fn has_tf_entry(d: &DirInfo) -> (r: bool)
    ensures
        r == exists|i: int| 0 <= i < d.entries@.len() && is_tf_name(#[trigger] d.entries@[i]@),
{
    let ext = chars_of(".tf");
    proof {
        reveal_strlit(".tf");
    }
    let mut i: usize = 0;
    while i < d.entries.len()
        invariant
            ext@ == ".tf"@,
            0 <= i <= d.entries@.len(),
            forall|j: int| 0 <= j < i ==> !is_tf_name(#[trigger] d.entries@[j]@),
        decreases d.entries@.len() - i,
    {
        let cs = chars_of(d.entries[i].as_str());
        if cs.len() >= 4 {
            let tail = slice_chars(&cs, cs.len() - 3, cs.len());
            if text_eq(string_of(&tail).as_str(), ".tf") {
                return true;
            }
        }
        i = i + 1;
    }
    false
}

/// The view of a detection result.
pub open spec fn found_view(r: Option<(String, Language, ProjectType)>) -> Option<
    (Seq<char>, Language, ProjectType),
> {
    match r {
        Some((n, l, t)) => Some((n@, l, t)),
        None => None,
    }
}

fn name_or_dir(v: Option<String>, d: &DirInfo) -> (r: Option<String>)
    ensures
        opt_text(r) == or_dir_name(opt_text(v), *d),
{
    match v {
        Some(x) => Some(x),
        None => d.name.clone(),
    }
}

fn found_exec(n: Option<String>, l: Language, t: ProjectType) -> (r: Option<
    (String, Language, ProjectType),
>)
    ensures
        found_view(r) == found(opt_text(n), l, t),
{
    match n {
        Some(x) => Some((x, l, t)),
        None => None,
    }
}

fn detect_rust_project(d: &DirInfo) -> (r: Option<(String, Language, ProjectType)>)
    ensures
        found_view(r) == rust_project(*d),
{
    if entry_named(d, "Cargo.toml") {
        match &d.cargo_toml {
            Some(c) => {
                let name = name_or_dir(extract_toml_value(c.as_str(), "name"), d);
                let t = if contains_chars(&chars_of(c.as_str()), &chars_of("[workspace]")) {
                    ProjectType::Workspace
                } else {
                    ProjectType::Crate
                };
                found_exec(name, Language::Rust, t)
            },
            None => None,
        }
    } else if entry_named(d, "mod.rs") || entry_named(d, "lib.rs") {
        found_exec(d.name.clone(), Language::Rust, ProjectType::Directory)
    } else {
        None
    }
}

fn detect_python_project(d: &DirInfo) -> (r: Option<(String, Language, ProjectType)>)
    ensures
        found_view(r) == python_project(*d),
{
    if entry_named(d, "pyproject.toml") || entry_named(d, "setup.py") || entry_named(d, "setup.cfg") {
        found_exec(d.name.clone(), Language::Python, ProjectType::Package)
    } else if entry_named(d, "__init__.py") {
        found_exec(d.name.clone(), Language::Python, ProjectType::Directory)
    } else {
        None
    }
}

fn detect_node_project(d: &DirInfo) -> (r: Option<(String, Language, ProjectType)>)
    ensures
        found_view(r) == node_project(*d),
{
    if entry_named(d, "package.json") {
        match &d.package_json {
            Some(c) => {
                let name = name_or_dir(extract_json_value(c.as_str(), "name"), d);
                let l = if entry_named(d, "tsconfig.json") {
                    Language::TypeScript
                } else {
                    Language::JavaScript
                };
                found_exec(name, l, ProjectType::NpmPackage)
            },
            None => None,
        }
    } else {
        None
    }
}

fn detect_go_project(d: &DirInfo) -> (r: Option<(String, Language, ProjectType)>)
    ensures
        found_view(r) == go_project(*d),
{
    if entry_named(d, "go.mod") {
        match &d.go_mod {
            Some(c) => {
                let name = name_or_dir(extract_go_module(c.as_str()), d);
                found_exec(name, Language::Go, ProjectType::GoModule)
            },
            None => None,
        }
    } else {
        None
    }
}

fn detect_java_project(d: &DirInfo) -> (r: Option<(String, Language, ProjectType)>)
    ensures
        found_view(r) == java_project(*d),
{
    if entry_named(d, "pom.xml") || entry_named(d, "build.gradle") || entry_named(
        d,
        "build.gradle.kts",
    ) {
        found_exec(d.name.clone(), Language::Java, ProjectType::JavaProject)
    } else {
        None
    }
}

fn detect_terraform_project(d: &DirInfo) -> (r: Option<(String, Language, ProjectType)>)
    ensures
        found_view(r) == terraform_project(*d),
{
    if has_tf_entry(d) {
        found_exec(d.name.clone(), Language::Hcl, ProjectType::TerraformModule)
    } else {
        None
    }
}

/// The module identifier of a relative path.
pub fn module_id_for_path(p: &str) -> (r: String)
    ensures
        r@ == module_id_of(p@),
{
    if chars_of(p).len() == 0 {
        text_of("root")
    } else {
        crate::chunk::path_id(p)
    }
}

/// The module of one directory: the project that its markers show, in the
/// order Rust, Python, Node, Go, Java, Terraform, or else a plain directory
/// module; its identifier comes from its path, and its parent is the module of
/// the parent directory.
pub fn detect_project(d: &DirInfo) -> (m: Module)
    ensures
        module_of_dir(m, *d),
{
    let detected = match detect_rust_project(d) {
        Some(x) => Some(x),
        None => match detect_python_project(d) {
            Some(x) => Some(x),
            None => match detect_node_project(d) {
                Some(x) => Some(x),
                None => match detect_go_project(d) {
                    Some(x) => Some(x),
                    None => match detect_java_project(d) {
                        Some(x) => Some(x),
                        None => detect_terraform_project(d),
                    },
                },
            },
        },
    };
    proof {
        reveal(module_of_dir);
    }
    let id = module_id_for_path(d.path.as_str());
    let mut m = match detected {
        Some((name, language, project_type)) => Module::new(
            name,
            d.path.clone(),
            language,
            project_type,
        ),
        None => {
            let name = if chars_of(d.path.as_str()).len() == 0 {
                text_of("root")
            } else {
                match &d.name {
                    Some(x) => x.clone(),
                    None => text_of("dir"),
                }
            };
            Module::new(name, d.path.clone(), Language::Unknown, ProjectType::Directory)
        },
    };
    m.id = id;
    match &d.parent_path {
        Some(pp) => {
            let pid = module_id_for_path(pp.as_str());
            if !text_eq(pid.as_str(), m.id.as_str()) {
                m = m.with_parent(pid);
            }
        },
        None => {},
    }
    m
}

/// The identifier of a module, as a function.
pub open spec fn module_idf() -> spec_fn(Module) -> Seq<char> {
    |m: Module| m.id@
}

/// No two modules share an identifier.
pub open spec fn ids_unique(ms: Seq<Module>) -> bool {
    forall|i: int, j: int| 0 <= i < j < ms.len() ==> (#[trigger] ms[i]).id@ != (#[trigger] ms[j]).id@
}

/// A copy of `m`.
pub fn copy_module(m: &Module) -> (r: Module)
    ensures
        r == *m,
{
    Module {
        id: m.id.clone(),
        name: m.name.clone(),
        path: m.path.clone(),
        language: m.language,
        project_type: m.project_type,
        parent_id: match &m.parent_id {
            Some(p) => Some(p.clone()),
            None => None,
        },
    }
}

/// Put `m` in place of the module of the same identifier, or add it where
/// there is none; the position it takes is returned.
fn upsert_module(ms: &mut Vec<Module>, m: Module) -> (idx: usize)
    requires
        ids_unique(old(ms)@),
    ensures
        ids_unique(final(ms)@),
        (idx < old(ms)@.len() && old(ms)@[idx as int].id@ == m.id@ && final(ms)@ == old(
            ms,
        )@.update(idx as int, m)) || (idx == old(ms)@.len() && (forall|j: int|
            0 <= j < old(ms)@.len() ==> (#[trigger] old(ms)@[j]).id@ != m.id@) && final(ms)@ == old(
            ms,
        )@.push(m)),
{
    let mut i: usize = 0;
    while i < ms.len()
        invariant
            ms@ == old(ms)@,
            ids_unique(old(ms)@),
            0 <= i <= ms@.len(),
            forall|j: int| 0 <= j < i ==> (#[trigger] ms@[j]).id@ != m.id@,
        decreases ms@.len() - i,
    {
        if text_eq(ms[i].id.as_str(), m.id.as_str()) {
            let ghost before = ms@;
            ms.set(i, m);
            proof {
                assert forall|a: int, b: int| 0 <= a < b < ms@.len() implies (#[trigger] ms@[a]).id@
                    != (#[trigger] ms@[b]).id@ by {
                    assert(before[a].id@ != before[b].id@);
                }
            }
            return i;
        }
        i = i + 1;
    }
    let n = ms.len();
    ms.push(m);
    proof {
        assert forall|a: int, b: int| 0 <= a < b < ms@.len() implies (#[trigger] ms@[a]).id@
            != (#[trigger] ms@[b]).id@ by {
            if b < n {
                assert(old(ms)@[a].id@ != old(ms)@[b].id@);
            }
        }
    }
    n
}

proof fn lemma_upsert_ids(before: Seq<Module>, after: Seq<Module>, m: Module, km: int)
    requires
        0 <= km,
        (km < before.len() && before[km].id@ == m.id@ && after == before.update(km, m)) || (km
            == before.len() && after == before.push(m)),
    ensures
        forall|k: int| 0 <= k < before.len() ==> (#[trigger] after[k]).id@ == before[k].id@,
        0 <= km < after.len(),
        after[km].id@ == m.id@,
        after.len() == before.len() || (after.len() == before.len() + 1 && km == before.len()),
{
    assert forall|k: int| 0 <= k < before.len() implies (#[trigger] after[k]).id@ == before[k].id@ by {
        if k == km {
        } else {
            assert(after[k] == before[k]);
        }
    }
}

/// A copy of `ms`.
pub fn copy_modules(ms: &Vec<Module>) -> (r: Vec<Module>)
    ensures
        r@ == ms@,
{
    let mut out: Vec<Module> = Vec::new();
    let mut j: usize = 0;
    while j < ms.len()
        invariant
            0 <= j <= ms@.len(),
            out@ == ms@.subrange(0, j as int),
        decreases ms@.len() - j,
    {
        out.push(copy_module(&ms[j]));
        assert(out@ =~= ms@.subrange(0, j as int + 1));
        j = j + 1;
    }
    assert(out@ =~= ms@);
    out
}

/// `det` holds the module of each directory of `dirs`, and `after` is
/// `before` with them recorded in order, each replacing the module of its
/// identifier.
pub open spec fn refreshed_by(
    det: Seq<Module>,
    dirs: Seq<DirInfo>,
    before: Map<Seq<char>, Module>,
    after: Map<Seq<char>, Module>,
) -> bool {
    &&& det.len() == dirs.len()
    &&& forall|a: int| 0 <= a < dirs.len() ==> module_of_dir(#[trigger] det[a], dirs[a])
    &&& after == put_all(before, det, module_idf())
}

/// Detects project and module boundaries in a tree.
pub struct ProjectDetector {
    /// Detected modules, at most one per identifier
    pub modules: Vec<Module>,
    /// Root of the indexed tree
    pub root_path: String,
}

impl ProjectDetector {
    /// Module identifiers are unique.
    pub open spec fn wf(&self) -> bool {
        ids_unique(self.modules@)
    }

    /// A detector for the tree rooted at `root_path`, with no modules yet.
    pub fn new(root_path: &str) -> (r: ProjectDetector)
        ensures
            r.wf(),
            r.modules@.len() == 0,
            r.root_path@ == root_path@,
    {
        ProjectDetector { modules: Vec::new(), root_path: text_of(root_path) }
    }

    /// The recorded modules by identifier.
    pub open spec fn module_map(&self) -> Map<Seq<char>, Module> {
        seq_map(self.modules@, module_idf())
    }

    /// Record modules in order, each replacing a recorded module of the same
    /// identifier: afterwards each identifier maps to the last given module
    /// with it, and the other recorded modules stay.
    pub fn set_modules(&mut self, modules: Vec<Module>)
        requires
            old(self).wf(),
        ensures
            final(self).wf(),
            final(self).root_path == old(self).root_path,
            final(self).module_map() == put_all(old(self).module_map(), modules@, module_idf()),
    {
        let mut i: usize = 0;
        while i < modules.len()
            invariant
                self.wf(),
                self.root_path == old(self).root_path,
                0 <= i <= modules@.len(),
                self.module_map() == put_all(old(self).module_map(), modules@.subrange(0, i as int), module_idf()),
            decreases modules@.len() - i,
        {
            let ghost before = self.modules@;
            let m = copy_module(&modules[i]);
            let km = upsert_module(&mut self.modules, m);
            proof {
                assert(modules@.subrange(0, i as int + 1) =~= modules@.subrange(0, i as int).push(m));
                lemma_put_all_push(old(self).module_map(), modules@.subrange(0, i as int), m, module_idf());
                if (km as int) < before.len() {
                    assert(keys_unique(before, module_idf())) by {
                        assert forall|a: int, b: int| 0 <= a < b < before.len() implies module_idf()(#[trigger] before[a]) != module_idf()(#[trigger] before[b]) by {}
                    }
                    lemma_seq_map_update(before, module_idf(), km as int, m);
                } else {
                    assert(self.modules@.drop_last() =~= before);
                }
            }
            i = i + 1;
        }
        assert(modules@.subrange(0, modules@.len() as int) =~= modules@);
    }

    /// Detect the module of each directory that the walk saw (in the order
    /// of the walk, a parent before its children) and record them, each
    /// replacing the recorded module of its identifier; identifiers of
    /// distinct directories differ. The recorded modules are returned; on a
    /// detector without modules they are those of the directories, in order.
    pub fn detect_modules(&mut self, dirs: &Vec<DirInfo>) -> (r: Vec<Module>)
        requires
            old(self).wf(),
            forall|a: int, b: int|
                0 <= a < b < dirs@.len() ==> module_id_of((#[trigger] dirs@[a]).path@)
                    != module_id_of((#[trigger] dirs@[b]).path@),
        ensures
            final(self).wf(),
            final(self).root_path == old(self).root_path,
            r@ == final(self).modules@,
            old(self).modules@.len() == 0 ==> r@.len() == dirs@.len() && forall|a: int|
                0 <= a < dirs@.len() ==> module_of_dir(#[trigger] r@[a], dirs@[a]),
            exists|det: Seq<Module>| #[trigger] refreshed_by(det, dirs@, old(self).module_map(), final(self).module_map()),
    {
        let ghost fresh = self.modules@.len() == 0;
        let ghost m0 = self.module_map();
        let ghost mut det: Seq<Module> = Seq::empty();
        let mut ms = copy_modules(&self.modules);
        let mut i: usize = 0;
        while i < dirs.len()
            invariant
                ids_unique(ms@),
                0 <= i <= dirs@.len(),
                forall|a: int, b: int|
                    0 <= a < b < dirs@.len() ==> module_id_of((#[trigger] dirs@[a]).path@)
                        != module_id_of((#[trigger] dirs@[b]).path@),
                fresh ==> ms@.len() == i && forall|a: int|
                    0 <= a < i ==> module_of_dir(#[trigger] ms@[a], dirs@[a]),
                det.len() == i,
                forall|a: int| 0 <= a < i ==> module_of_dir(#[trigger] det[a], dirs@[a]),
                seq_map(ms@, module_idf()) == put_all(m0, det, module_idf()),
            decreases dirs@.len() - i,
        {
            let ghost before = ms@;
            let m = detect_project(&dirs[i]);
            let ghost mv = m;
            let km = upsert_module(&mut ms, m);
            proof {
                lemma_put_all_push(m0, det, mv, module_idf());
                if (km as int) < before.len() {
                    assert(keys_unique(before, module_idf())) by {
                        assert forall|a: int, b: int| 0 <= a < b < before.len() implies module_idf()(#[trigger] before[a]) != module_idf()(#[trigger] before[b]) by {}
                    }
                    lemma_seq_map_update(before, module_idf(), km as int, mv);
                } else {
                    assert(ms@.drop_last() =~= before);
                }
                let od = det;
                det = det.push(mv);
                assert forall|a: int| 0 <= a < i + 1 implies module_of_dir(#[trigger] det[a], dirs@[a]) by {
                    if a < i {
                        assert(det[a] == od[a]);
                    }
                }
                if fresh {
                    reveal(module_of_dir);
                    if km < before.len() {
                        let k = km as int;
                        assert(module_of_dir(before[k], dirs@[k]));
                        assert(module_id_of(dirs@[k].path@) != module_id_of(dirs@[i as int].path@));
                    }
                    assert forall|a: int| 0 <= a < i + 1 implies module_of_dir(#[trigger] ms@[a], dirs@[a]) by {
                        if a < i {
                            assert(ms@[a] == before[a]);
                        }
                    }
                }
            }
            i = i + 1;
        }
        let r = copy_modules(&ms);
        self.modules = ms;
        assert(refreshed_by(det, dirs@, m0, self.module_map()));
        r
    }
}

/// The path that a module identifier stands for: `::` back to `/`.
pub open spec fn id_to_path(s: Seq<char>) -> Seq<char>
    decreases s.len(),
{
    if s.len() >= 2 && s.last() == ':' && s[s.len() - 2] == ':' {
        id_to_path(s.subrange(0, s.len() - 2)).push('/')
    } else if s.len() == 0 {
        Seq::empty()
    } else {
        id_to_path(s.drop_last()).push(s.last())
    }
}

/// A path that holds no `:` and no `\`.
pub open spec fn is_plain_path(p: Seq<char>) -> bool {
    forall|i: int| 0 <= i < p.len() ==> #[trigger] p[i] != ':' && p[i] != '\\'
}

proof fn lemma_id_round_trip(p: Seq<char>)
    requires
        is_plain_path(p),
    ensures
        id_to_path(path_to_id(p)) == p,
    decreases p.len(),
{
    if p.len() > 0 {
        let q = p.drop_last();
        assert(is_plain_path(q)) by {
            assert forall|i: int| 0 <= i < q.len() implies #[trigger] q[i] != ':' && q[i] != '\\' by {
                assert(q[i] == p[i]);
            }
        }
        lemma_id_round_trip(q);
        let x = path_to_id(q);
        if is_path_separator(p.last()) {
            let y = x + seq![':', ':'];
            assert(y.subrange(0, y.len() - 2) =~= x);
            assert(q.push('/') =~= p);
        } else {
            let y = x.push(p.last());
            assert(p.last() != ':');
            assert(y.drop_last() =~= x);
            assert(q.push(p.last()) =~= p);
        }
    }
}

proof fn lemma_id_to_path_plain(s: Seq<char>)
    requires
        forall|i: int| 0 <= i < s.len() ==> #[trigger] s[i] != ':',
    ensures
        id_to_path(s) == s,
    decreases s.len(),
{
    if s.len() > 0 {
        let q = s.drop_last();
        assert forall|i: int| 0 <= i < q.len() implies #[trigger] q[i] != ':' by {
            assert(q[i] == s[i]);
        }
        lemma_id_to_path_plain(q);
        assert(q.push(s.last()) =~= s);
    }
}

/// Within one walk the module identifier determines the module path and the
/// path determines the identifier: distinct relative paths give distinct
/// identifiers, for paths without `:` or `\` other than `root`.
pub proof fn lemma_module_id_determines_path(path_a: Seq<char>, path_b: Seq<char>)
    requires
        is_plain_path(path_a),
        is_plain_path(path_b),
        path_a != "root"@,
        path_b != "root"@,
    ensures
        module_id_of(path_a) == module_id_of(path_b) <==> path_a == path_b,
{
    if module_id_of(path_a) == module_id_of(path_b) {
        reveal_strlit("root");
        assert forall|i: int| 0 <= i < "root"@.len() implies #[trigger] "root"@[i] != ':' by {}
        lemma_id_to_path_plain("root"@);
        if path_a.len() == 0 && path_b.len() > 0 {
            lemma_id_round_trip(path_b);
            assert(path_to_id(path_b) == "root"@);
            assert(path_b == id_to_path("root"@));
        } else if path_b.len() == 0 && path_a.len() > 0 {
            lemma_id_round_trip(path_a);
            assert(path_to_id(path_a) == "root"@);
            assert(path_a == id_to_path("root"@));
        } else if path_a.len() > 0 && path_b.len() > 0 {
            lemma_id_round_trip(path_a);
            lemma_id_round_trip(path_b);
        } else {
            assert(path_a =~= path_b);
        }
    }
}

/// The number of path separators of `p`.
pub open spec fn sep_count(p: Seq<char>) -> nat
    decreases p.len(),
{
    if p.len() == 0 {
        0
    } else {
        sep_count(p.drop_last()) + if is_path_separator(p.last()) {
            1nat
        } else {
            0nat
        }
    }
}

/// The number of components of a relative path: 0 for the root.
pub open spec fn path_depth(p: Seq<char>) -> int {
    if p.len() == 0 {
        0
    } else {
        sep_count(p) + 1int
    }
}

/// The module path `m` contains the relative path `rel` (the empty path contains all).
pub open spec fn is_under(m: Seq<char>, rel: Seq<char>) -> bool {
    m.len() == 0 || rel == m || starts_with(rel, m.push('/'))
}

/// `f` relative to `root`, where it lies under it.
pub open spec fn relative_to(root: Seq<char>, f: Seq<char>) -> Option<Seq<char>> {
    if root.len() == 0 {
        Some(f)
    } else if f == root {
        Some(Seq::empty())
    } else if starts_with(f, root.push('/')) {
        Some(f.subrange(root.len() as int + 1, f.len() as int))
    } else {
        None
    }
}

fn count_separators(p: &Vec<char>) -> (r: usize)
    ensures
        r == sep_count(p@),
{
    let mut n: usize = 0;
    let mut i: usize = 0;
    while i < p.len()
        invariant
            0 <= i <= p@.len(),
            n == sep_count(p@.subrange(0, i as int)),
            n <= i,
        decreases p@.len() - i,
    {
        assert(p@.subrange(0, i as int + 1).drop_last() =~= p@.subrange(0, i as int));
        if p[i] == '/' || p[i] == '\\' {
            n = n + 1;
        }
        i = i + 1;
    }
    assert(p@.subrange(0, p@.len() as int) =~= p@);
    n
}

fn push_char(v: &Vec<char>, c: char) -> (r: Vec<char>)
    ensures
        r@ == v@.push(c),
{
    let mut r = v.clone();
    r.push(c);
    r
}

fn seq_eq(a: &Vec<char>, b: &Vec<char>) -> (r: bool)
    ensures
        r == (a@ == b@),
{
    text_eq(string_of(a).as_str(), string_of(b).as_str())
}

fn relative_path(root: &str, f: &str) -> (r: Option<Vec<char>>)
    ensures
        match relative_to(root@, f@) {
            Some(x) => r matches Some(y) && y@ == x,
            None => r is None,
        },
{
    let rc = chars_of(root);
    let fc = chars_of(f);
    let fl = fc.len();
    if rc.len() == 0 {
        return Some(fc);
    }
    if seq_eq(&fc, &rc) {
        return Some(Vec::new());
    }
    let prefix = push_char(&rc, '/');
    if has_prefix(&fc, &prefix) {
        Some(slice_chars(&fc, rc.len() + 1, fl))
    } else {
        None
    }
}

impl ProjectDetector {
    /// The deepest module (by number of path components; the last one among
    /// equals) whose path contains `file_path`, taken relative to the root.
    pub fn find_module_for_file(&self, file_path: &str) -> (r: Option<&Module>)
        ensures
            match relative_to(self.root_path@, file_path@) {
                None => r is None,
                Some(rel) => match r {
                    None => forall|j: int|
                        0 <= j < self.modules@.len() ==> !is_under(
                            (#[trigger] self.modules@[j]).path@,
                            rel,
                        ),
                    Some(m) => is_under(m.path@, rel) && (exists|k: int|
                        #![trigger self.modules@[k]]
                        0 <= k < self.modules@.len() && self.modules@[k] == *m) && forall|j: int|
                        0 <= j < self.modules@.len() && is_under(
                            (#[trigger] self.modules@[j]).path@,
                            rel,
                        ) ==> path_depth(self.modules@[j].path@) <= path_depth(m.path@),
                },
            },
    {
        let rel = match relative_path(self.root_path.as_str(), file_path) {
            Some(x) => x,
            None => {
                return None;
            },
        };
        let mut best: Option<usize> = None;
        let mut best_depth: u128 = 0;
        let mut k: usize = 0;
        while k < self.modules.len()
            invariant
                0 <= k <= self.modules@.len(),
                best matches Some(b) ==> b < k && is_under(self.modules@[b as int].path@, rel@)
                    && best_depth == path_depth(self.modules@[b as int].path@),
                forall|j: int|
                    0 <= j < k && is_under((#[trigger] self.modules@[j]).path@, rel@) ==> best is Some
                        && path_depth(self.modules@[j].path@) <= best_depth,
            decreases self.modules@.len() - k,
        {
            let path = chars_of(self.modules[k].path.as_str());
            let under = path.len() == 0 || seq_eq(&rel, &path) || has_prefix(
                &rel,
                &push_char(&path, '/'),
            );
            if under {
                let depth: u128 = if path.len() == 0 {
                    0
                } else {
                    count_separators(&path) as u128 + 1
                };
                if best.is_none() || depth >= best_depth {
                    best = Some(k);
                    best_depth = depth;
                }
            }
            k = k + 1;
        }
        match best {
            Some(b) => {
                let m = &self.modules[b];
                assert(self.modules@[b as int] == *m);
                Some(m)
            },
            None => None,
        }
    }

    /// The identifier of the module that `find_module_for_file` finds.
    pub fn get_module_id_for_file(&self, file_path: &str) -> (r: Option<String>)
        ensures
            match relative_to(self.root_path@, file_path@) {
                None => r is None,
                Some(rel) => match r {
                    None => forall|j: int|
                        0 <= j < self.modules@.len() ==> !is_under(
                            (#[trigger] self.modules@[j]).path@,
                            rel,
                        ),
                    Some(id) => exists|k: int|
                        #![trigger self.modules@[k]]
                        0 <= k < self.modules@.len() && self.modules@[k].id@ == id@ && is_under(
                            self.modules@[k].path@,
                            rel,
                        ) && forall|j: int|
                            0 <= j < self.modules@.len() && is_under(
                                (#[trigger] self.modules@[j]).path@,
                                rel,
                            ) ==> path_depth(self.modules@[j].path@) <= path_depth(
                                self.modules@[k].path@,
                            ),
                },
            },
    {
        match self.find_module_for_file(file_path) {
            Some(m) => Some(m.id.clone()),
            None => None,
        }
    }
}

} // verus!
