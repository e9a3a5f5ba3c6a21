//! Character-level helpers shared by the parsers and builders of this crate.
use vstd::prelude::*;

verus! {

/// Relies on `str::chars` collected into a `Vec`: the characters of `s` in order.
#[verifier::external_body]
pub fn chars_of(s: &str) -> (r: Vec<char>)
    ensures
        r@ == s@,
{
    s.chars().collect()
}

/// Relies on `String: FromIterator<char>`: the string made of the characters of `v` in order.
#[verifier::external_body]
pub fn string_of(v: &Vec<char>) -> (r: String)
    ensures
        r@ == v@,
{
    v.iter().collect()
}

/// Whether two texts hold the same characters.
pub fn text_eq(a: &str, b: &str) -> (r: bool)
    ensures
        r == (a@ == b@),
{
    let x = chars_of(a);
    let y = chars_of(b);
    if x.len() != y.len() {
        return false;
    }
    let mut i: usize = 0;
    while i < x.len()
        invariant
            x@ == a@,
            y@ == b@,
            x@.len() == y@.len(),
            0 <= i <= x@.len(),
            forall|j: int| 0 <= j < i ==> x@[j] == y@[j],
        decreases x@.len() - i,
    {
        if x[i] != y[i] {
            return false;
        }
        i = i + 1;
    }
    assert(x@ =~= y@);
    true
}

/// The lowercase form of `s`, as Rust's `str::to_lowercase` computes it.
pub uninterp spec fn lower_of(s: Seq<char>) -> Seq<char>;

/// Every character of `s` is ASCII.
pub open spec fn is_ascii_text(s: Seq<char>) -> bool {
    forall|i: int| 0 <= i < s.len() ==> (#[trigger] s[i] as u32) < 128
}

/// `s` with `A` to `Z` turned into `a` to `z`.
pub open spec fn ascii_lower(s: Seq<char>) -> Seq<char> {
    Seq::new(
        s.len(),
        |i: int|
            if 'A' <= s[i] && s[i] <= 'Z' {
                ((s[i] as u32) + 32) as char
            } else {
                s[i]
            },
    )
}

/// Relies on `str::to_lowercase`: the result depends on the characters of
/// `s` alone, and on ASCII text it is the ASCII lowercase form, since the
/// Unicode lowercase of an ASCII character is its ASCII lowercase.
#[verifier::external_body]
pub fn to_lowercase(s: &str) -> (r: String)
    ensures
        r@ == lower_of(s@),
        is_ascii_text(s@) ==> r@ == ascii_lower(s@),
{
    s.to_lowercase()
}

/// Whether `c` has Unicode's White_Space property, as `char::is_whitespace` tests.
pub open spec fn is_space(c: char) -> bool {
    ('\u{9}' <= c && c <= '\u{d}') || c == ' ' || c == '\u{85}' || c == '\u{a0}' || c
        == '\u{1680}' || ('\u{2000}' <= c && c <= '\u{200a}') || c == '\u{2028}' || c
        == '\u{2029}' || c == '\u{202f}' || c == '\u{205f}' || c == '\u{3000}'
}

/// Whether `c` is whitespace.
pub fn is_space_char(c: char) -> (r: bool)
    ensures
        r == is_space(c),
{
    ('\u{9}' <= c && c <= '\u{d}') || c == ' ' || c == '\u{85}' || c == '\u{a0}' || c
        == '\u{1680}' || ('\u{2000}' <= c && c <= '\u{200a}') || c == '\u{2028}' || c
        == '\u{2029}' || c == '\u{202f}' || c == '\u{205f}' || c == '\u{3000}'
}

/// `s` without its leading whitespace.
pub open spec fn trim_start(s: Seq<char>) -> Seq<char>
    decreases s.len(),
{
    if s.len() > 0 && is_space(s[0]) {
        trim_start(s.drop_first())
    } else {
        s
    }
}

/// `s` without its trailing whitespace.
pub open spec fn trim_end(s: Seq<char>) -> Seq<char>
    decreases s.len(),
{
    if s.len() > 0 && is_space(s.last()) {
        trim_end(s.drop_last())
    } else {
        s
    }
}

/// `s` without leading and trailing whitespace, as `str::trim` gives it.
pub open spec fn trim(s: Seq<char>) -> Seq<char> {
    trim_end(trim_start(s))
}

proof fn lemma_trim_start_at(s: Seq<char>, a: int)
    requires
        0 <= a <= s.len(),
        forall|k: int| 0 <= k < a ==> is_space(#[trigger] s[k]),
        a == s.len() || !is_space(s[a]),
    ensures
        trim_start(s) == s.subrange(a, s.len() as int),
    decreases a,
{
    if a == 0 {
        assert(s.subrange(0, s.len() as int) =~= s);
    } else {
        let t = s.drop_first();
        assert forall|k: int| 0 <= k < a - 1 implies is_space(#[trigger] t[k]) by {
            assert(t[k] == s[k + 1]);
        }
        if a - 1 < t.len() {
            assert(t[a - 1] == s[a]);
        }
        lemma_trim_start_at(t, a - 1);
        assert(t.subrange(a - 1, t.len() as int) =~= s.subrange(a, s.len() as int));
    }
}

proof fn lemma_trim_end_at(s: Seq<char>, b: int)
    requires
        0 <= b <= s.len(),
        forall|k: int| b <= k < s.len() ==> is_space(#[trigger] s[k]),
        b == 0 || !is_space(s[b - 1]),
    ensures
        trim_end(s) == s.subrange(0, b),
    decreases s.len() - b,
{
    if b == s.len() {
        assert(s.subrange(0, b) =~= s);
    } else {
        let t = s.drop_last();
        assert forall|k: int| b <= k < t.len() implies is_space(#[trigger] t[k]) by {
            assert(t[k] == s[k]);
        }
        if b > 0 {
            assert(t[b - 1] == s[b - 1]);
        }
        lemma_trim_end_at(t, b);
        assert(t.subrange(0, b) =~= s.subrange(0, b));
    }
}

/// `v` without leading and trailing whitespace.
pub fn trim_chars(v: &Vec<char>) -> (r: Vec<char>)
    ensures
        r@ == trim(v@),
{
    let n = v.len();
    let mut a: usize = 0;
    while a < n && is_space_char(v[a])
        invariant
            0 <= a <= n,
            n == v@.len(),
            forall|k: int| 0 <= k < a ==> is_space(#[trigger] v@[k]),
        decreases n - a,
    {
        a = a + 1;
    }
    proof {
        lemma_trim_start_at(v@, a as int);
    }
    let ghost t = v@.subrange(a as int, n as int);
    let mut b: usize = n;
    while b > a && is_space_char(v[b - 1])
        invariant
            a <= b <= n,
            n == v@.len(),
            forall|k: int| b <= k < n ==> is_space(#[trigger] v@[k]),
        decreases b - a,
    {
        b = b - 1;
    }
    proof {
        assert forall|k: int| b - a <= k < t.len() implies is_space(#[trigger] t[k]) by {
            assert(t[k] == v@[k + a]);
        }
        if b > a {
            assert(t[b - a - 1] == v@[b - 1]);
        }
        lemma_trim_end_at(t, b - a);
    }
    let mut r: Vec<char> = Vec::new();
    let mut i: usize = a;
    while i < b
        invariant
            a <= i <= b <= n,
            n == v@.len(),
            r@ == v@.subrange(a as int, i as int),
        decreases b - i,
    {
        r.push(v[i]);
        assert(r@ =~= v@.subrange(a as int, i as int + 1));
        i = i + 1;
    }
    assert(r@ =~= t.subrange(0, b - a));
    r
}

/// The lines finished so far in `s`, and the line still open at its end.
pub open spec fn line_state(s: Seq<char>) -> (Seq<Seq<char>>, Seq<char>)
    decreases s.len(),
{
    if s.len() == 0 {
        (Seq::empty(), Seq::empty())
    } else {
        let (done, cur) = line_state(s.drop_last());
        if s.last() == '\n' {
            (done.push(strip_cr(cur)), Seq::empty())
        } else {
            (done, cur.push(s.last()))
        }
    }
}

/// A line without the `'\r'` of a `"\r\n"` ending.
pub open spec fn strip_cr(l: Seq<char>) -> Seq<char> {
    if l.len() > 0 && l.last() == '\r' {
        l.drop_last()
    } else {
        l
    }
}

/// The lines of `s` as `str::lines` gives them: split at `"\n"` or
/// `"\r\n"`, with no empty line after a final line ending.
pub open spec fn lines_of(s: Seq<char>) -> Seq<Seq<char>> {
    let (done, cur) = line_state(s);
    if cur.len() > 0 {
        done.push(cur)
    } else {
        done
    }
}

/// Split `s` into its lines.
pub fn split_lines(s: &str) -> (r: Vec<Vec<char>>)
    ensures
        r@.len() == lines_of(s@).len(),
        forall|i: int| 0 <= i < r@.len() ==> (#[trigger] r@[i])@ == lines_of(s@)[i],
{
    let cs = chars_of(s);
    let mut done: Vec<Vec<char>> = Vec::new();
    let mut cur: Vec<char> = Vec::new();
    let mut i: usize = 0;
    while i < cs.len()
        invariant
            cs@ == s@,
            0 <= i <= cs@.len(),
            done@.len() == line_state(cs@.subrange(0, i as int)).0.len(),
            forall|k: int|
                0 <= k < done@.len() ==> (#[trigger] done@[k])@ == line_state(
                    cs@.subrange(0, i as int),
                ).0[k],
            cur@ == line_state(cs@.subrange(0, i as int)).1,
        decreases cs@.len() - i,
    {
        assert(cs@.subrange(0, i as int + 1).drop_last() =~= cs@.subrange(0, i as int));
        let c = cs[i];
        if c == '\n' {
            if cur.len() > 0 && cur[cur.len() - 1] == '\r' {
                cur.pop();
            }
            done.push(cur);
            cur = Vec::new();
        } else {
            cur.push(c);
        }
        i = i + 1;
    }
    assert(cs@.subrange(0, cs@.len() as int) =~= cs@);
    if cur.len() > 0 {
        done.push(cur);
    }
    done
}

/// Whether `s` begins with `p`.
pub open spec fn starts_with(s: Seq<char>, p: Seq<char>) -> bool {
    p.len() <= s.len() && s.subrange(0, p.len() as int) == p
}

/// Whether `s` begins with `p`.
pub fn has_prefix(s: &Vec<char>, p: &Vec<char>) -> (r: bool)
    ensures
        r == starts_with(s@, p@),
{
    if p.len() > s.len() {
        return false;
    }
    let mut i: usize = 0;
    while i < p.len()
        invariant
            p@.len() <= s@.len(),
            0 <= i <= p@.len(),
            forall|k: int| 0 <= k < i ==> s@[k] == p@[k],
        decreases p@.len() - i,
    {
        if s[i] != p[i] {
            assert(s@.subrange(0, p@.len() as int)[i as int] != p@[i as int]);
            return false;
        }
        i = i + 1;
    }
    assert(s@.subrange(0, p@.len() as int) =~= p@);
    true
}

/// The characters of `s` from `a` to `b`.
pub fn slice_chars(s: &Vec<char>, a: usize, b: usize) -> (r: Vec<char>)
    requires
        a <= b <= s@.len(),
    ensures
        r@ == s@.subrange(a as int, b as int),
{
    let mut r: Vec<char> = Vec::new();
    let mut i: usize = a;
    while i < b
        invariant
            a <= i <= b <= s@.len(),
            r@ == s@.subrange(a as int, i as int),
        decreases b - i,
    {
        r.push(s[i]);
        assert(r@ =~= s@.subrange(a as int, i as int + 1));
        i = i + 1;
    }
    r
}

/// The first position at or after `from` where `s` holds `c`.
pub fn find_char(s: &Vec<char>, c: char, from: usize) -> (r: Option<usize>)
    requires
        from <= s@.len(),
    ensures
        match r {
            Some(i) => from <= i < s@.len() && s@[i as int] == c && forall|k: int|
                from <= k < i ==> s@[k] != c,
            None => forall|k: int| from <= k < s@.len() ==> s@[k] != c,
        },
{
    let mut i: usize = from;
    while i < s.len()
        invariant
            from <= i <= s@.len(),
            forall|k: int| from <= k < i ==> s@[k] != c,
        decreases s@.len() - i,
    {
        if s[i] == c {
            return Some(i);
        }
        i = i + 1;
    }
    None
}

/// Whether `n` occurs in `h`.
pub open spec fn contains_seq(h: Seq<char>, n: Seq<char>) -> bool {
    exists|i: int| 0 <= i && i + n.len() <= h.len() && #[trigger] h.subrange(i, i + n.len()) == n
}

fn matches_at(h: &Vec<char>, n: &Vec<char>, i: usize) -> (r: bool)
    requires
        i + n@.len() <= h@.len(),
    ensures
        r == (h@.subrange(i as int, i + n@.len()) == n@),
{
    let hl = h.len();
    let mut j: usize = 0;
    while j < n.len()
        invariant
            hl == h@.len(),
            i + n@.len() <= h@.len(),
            0 <= j <= n@.len(),
            forall|q: int| 0 <= q < j ==> h@[i + q] == n@[q],
        decreases n@.len() - j,
    {
        if h[i + j] != n[j] {
            assert(h@.subrange(i as int, i + n@.len())[j as int] != n@[j as int]);
            return false;
        }
        j = j + 1;
    }
    assert(h@.subrange(i as int, i + n@.len()) =~= n@);
    true
}

/// Whether `n` occurs in `h`.
pub fn contains_chars(h: &Vec<char>, n: &Vec<char>) -> (r: bool)
    ensures
        r == contains_seq(h@, n@),
{
    if n.len() > h.len() {
        return false;
    }
    let last = h.len() - n.len();
    let mut i: usize = 0;
    while i < last
        invariant
            last == h@.len() - n@.len(),
            0 <= i <= last,
            forall|k: int| 0 <= k < i ==> #[trigger] h@.subrange(k, k + n@.len()) != n@,
        decreases last - i,
    {
        if matches_at(h, n, i) {
            return true;
        }
        i = i + 1;
    }
    let r = matches_at(h, n, last);
    proof {
        if !r {
            assert forall|k: int| 0 <= k && k + n@.len() <= h@.len() implies #[trigger] h@.subrange(
                k,
                k + n@.len(),
            ) != n@ by {
                if k == last {
                }
            }
        }
    }
    r
}

/// A copy of `s` as a `String`.
pub fn text_of(s: &str) -> (r: String)
    ensures
        r@ == s@,
{
    s.to_owned()
}

} // verus!
