//! The query language: whitespace-separated words, where `key:value` words
//! with a known key become filters and all other words form the text query.
use crate::chunk::{language_of_name, Language};
use crate::text::{chars_of, is_space, is_space_char, lower_of, string_of, text_eq, to_lowercase};
use vstd::prelude::*;

verus! {

/// The words finished so far in `s`, and the word still open at its end.
pub open spec fn split_state(s: Seq<char>) -> (Seq<Seq<char>>, Seq<char>)
    decreases s.len(),
{
    if s.len() == 0 {
        (Seq::empty(), Seq::empty())
    } else {
        let (words, cur) = split_state(s.drop_last());
        if is_space(s.last()) {
            if cur.len() > 0 {
                (words.push(cur), Seq::empty())
            } else {
                (words, Seq::empty())
            }
        } else {
            (words, cur.push(s.last()))
        }
    }
}

/// The maximal runs of non-whitespace characters of `s`, in order.
pub open spec fn words_of(s: Seq<char>) -> Seq<Seq<char>> {
    let (words, cur) = split_state(s);
    if cur.len() > 0 {
        words.push(cur)
    } else {
        words
    }
}

/// Split `s` into its words.
pub fn split_words(s: &str) -> (r: Vec<Vec<char>>)
    ensures
        r@.len() == words_of(s@).len(),
        forall|i: int| 0 <= i < r@.len() ==> (#[trigger] r@[i])@ == words_of(s@)[i],
{
    let cs = chars_of(s);
    let mut words: Vec<Vec<char>> = Vec::new();
    let mut cur: Vec<char> = Vec::new();
    let mut i: usize = 0;
    while i < cs.len()
        invariant
            cs@ == s@,
            0 <= i <= cs@.len(),
            words@.len() == split_state(cs@.subrange(0, i as int)).0.len(),
            forall|k: int|
                0 <= k < words@.len() ==> (#[trigger] words@[k])@ == split_state(
                    cs@.subrange(0, i as int),
                ).0[k],
            cur@ == split_state(cs@.subrange(0, i as int)).1,
        decreases cs@.len() - i,
    {
        assert(cs@.subrange(0, i as int + 1).drop_last() =~= cs@.subrange(0, i as int));
        let c = cs[i];
        if is_space_char(c) {
            if cur.len() > 0 {
                words.push(cur);
                cur = Vec::new();
            }
        } else {
            cur.push(c);
        }
        i = i + 1;
    }
    assert(cs@.subrange(0, cs@.len() as int) =~= cs@);
    if cur.len() > 0 {
        words.push(cur);
    }
    words
}

/// The part of `w` before its first `':'`, and the part after it, where `w`
/// holds a `':'`.
pub open spec fn split_colon(w: Seq<char>) -> Option<(Seq<char>, Seq<char>)> {
    if exists|i: int| 0 <= i < w.len() && w[i] == ':' {
        let i = choose|i: int|
            0 <= i < w.len() && w[i] == ':' && forall|j: int| 0 <= j < i ==> w[j] != ':';
        Some((w.subrange(0, i), w.subrange(i + 1, w.len() as int)))
    } else {
        None
    }
}

/// The lowercase key of a `key:value` word.
pub open spec fn key_of(w: Seq<char>) -> Option<Seq<char>> {
    match split_colon(w) {
        Some((k, _)) => Some(lower_of(k)),
        None => None,
    }
}

/// The value of a `key:value` word.
pub open spec fn value_of(w: Seq<char>) -> Seq<char> {
    match split_colon(w) {
        Some((_, v)) => v,
        None => Seq::empty(),
    }
}

/// Whether `k` is one of the filter keys.
pub open spec fn is_filter_key(k: Seq<char>) -> bool {
    k == "author"@ || k == "lang"@ || k == "language"@ || k == "after"@ || k == "before"@ || k
        == "file"@ || k == "path"@ || k == "limit"@
}

/// Whether the word `w` is a filter.
pub open spec fn is_filter_word(w: Seq<char>) -> bool {
    key_of(w) matches Some(k) && is_filter_key(k)
}

/// The words of `ws` that are not filters, in order.
pub open spec fn text_words(ws: Seq<Seq<char>>) -> Seq<Seq<char>>
    decreases ws.len(),
{
    if ws.len() == 0 {
        Seq::empty()
    } else if is_filter_word(ws.last()) {
        text_words(ws.drop_last())
    } else {
        text_words(ws.drop_last()).push(ws.last())
    }
}

/// The words of `ws` joined by single spaces.
pub open spec fn join_words(ws: Seq<Seq<char>>) -> Seq<char>
    decreases ws.len(),
{
    if ws.len() == 0 {
        Seq::empty()
    } else if ws.len() == 1 {
        ws[0]
    } else {
        join_words(ws.drop_last()) + seq![' '] + ws.last()
    }
}

/// The value of the last word of `ws` whose key is one of `k1`, `k2`.
pub open spec fn last_value(ws: Seq<Seq<char>>, k1: Seq<char>, k2: Seq<char>) -> Option<Seq<char>>
    decreases ws.len(),
{
    if ws.len() == 0 {
        None
    } else if key_of(ws.last()) == Some(k1) || key_of(ws.last()) == Some(k2) {
        Some(value_of(ws.last()))
    } else {
        last_value(ws.drop_last(), k1, k2)
    }
}

/// The UTC instant, as seconds and nanoseconds since the Unix epoch, that an
/// RFC 3339 timestamp stands for, where `s` is one.
pub uninterp spec fn rfc3339_utc(s: Seq<char>) -> Option<(i64, u32)>;

/// Relies on `chrono::DateTime::parse_from_rfc3339`, turned to UTC: the
/// instant depends on the text alone.
#[verifier::external_body]
pub(crate) fn read_rfc3339(s: &str) -> (r: Option<(i64, u32)>)
    ensures
        r == rfc3339_utc(s@),
{
    chrono::DateTime::parse_from_rfc3339(s).ok().map(
        |t| (t.timestamp(), t.timestamp_subsec_nanos()),
    )
}

/// The instant of the last word of `ws` with key `k` whose value is an
/// RFC 3339 timestamp.
pub open spec fn last_instant(ws: Seq<Seq<char>>, k: Seq<char>) -> Option<(i64, u32)>
    decreases ws.len(),
{
    if ws.len() == 0 {
        None
    } else if key_of(ws.last()) == Some(k) && rfc3339_utc(value_of(ws.last())) is Some {
        rfc3339_utc(value_of(ws.last()))
    } else {
        last_instant(ws.drop_last(), k)
    }
}

/// The number written in decimal by `s`, an optional `+` and then digits.
pub open spec fn decimal_value(s: Seq<char>) -> int
    decreases s.len(),
{
    if s.len() == 0 {
        0
    } else if s.last() == '+' {
        decimal_value(s.drop_last())
    } else {
        decimal_value(s.drop_last()) * 10 + (s.last() as int - '0' as int)
    }
}

/// `s` without its leading `+`, if any.
pub open spec fn decimal_body(s: Seq<char>) -> Seq<char> {
    if s.len() > 0 && s[0] == '+' {
        s.subrange(1, s.len() as int)
    } else {
        s
    }
}

/// Whether `c` is a decimal digit.
pub open spec fn is_digit(c: char) -> bool {
    '0' <= c && c <= '9'
}

/// Whether `s` is an optional `+` followed by at least one decimal digit.
pub open spec fn is_decimal(s: Seq<char>) -> bool {
    &&& decimal_body(s).len() > 0
    &&& forall|i: int| 0 <= i < decimal_body(s).len() ==> is_digit(#[trigger] decimal_body(s)[i])
}

/// Whether `s` is a valid limit: a positive decimal integer that fits in `usize`.
pub open spec fn is_limit(s: Seq<char>) -> bool {
    is_decimal(s) && 0 < decimal_value(s) <= usize::MAX
}

/// The limit of the last `limit:` word of `ws` with a valid value, or 10.
pub open spec fn last_limit(ws: Seq<Seq<char>>) -> int
    decreases ws.len(),
{
    if ws.len() == 0 {
        10
    } else if key_of(ws.last()) == Some("limit"@) && is_limit(value_of(ws.last())) {
        decimal_value(value_of(ws.last()))
    } else {
        last_limit(ws.drop_last())
    }
}

proof fn lemma_decimal_monotone(s: Seq<char>, i: int, j: int)
    requires
        0 <= i <= j <= s.len(),
        decimal_value(s.subrange(0, i)) >= 0,
        forall|k: int| i <= k < j ==> is_digit(#[trigger] s[k]),
    ensures
        decimal_value(s.subrange(0, j)) >= decimal_value(s.subrange(0, i)),
    decreases j - i,
{
    if j > i {
        lemma_decimal_monotone(s, i, j - 1);
        assert(s.subrange(0, j).drop_last() =~= s.subrange(0, j - 1));
        assert(s.subrange(0, j).last() == s[j - 1]);
    }
}

/// Read a limit: a positive decimal integer, with an optional `+`, that
/// fits in `usize`.
pub fn parse_limit(v: &Vec<char>) -> (r: Option<usize>)
    ensures
        r is Some <==> is_limit(v@),
        r matches Some(n) ==> n == decimal_value(v@),
{
    let start: usize = if v.len() > 0 && v[0] == '+' {
        1
    } else {
        0
    };
    let ghost body = decimal_body(v@);
    assert(body =~= v@.subrange(start as int, v@.len() as int));
    if start >= v.len() {
        return None;
    }
    let mut i: usize = start;
    while i < v.len()
        invariant
            start <= i <= v@.len(),
            body == decimal_body(v@),
            body =~= v@.subrange(start as int, v@.len() as int),
            forall|k: int| start <= k < i ==> is_digit(#[trigger] v@[k]),
        decreases v@.len() - i,
    {
        if v[i] < '0' || v[i] > '9' {
            assert(body[i - start] == v@[i as int]);
            assert(!is_digit(body[i - start]));
            return None;
        }
        i = i + 1;
    }
    assert forall|k: int| 0 <= k < body.len() implies is_digit(#[trigger] body[k]) by {
        assert(body[k] == v@[k + start]);
    }
    assert(is_decimal(v@));
    assert(decimal_value(v@.subrange(0, start as int)) == 0) by {
        assert(decimal_value(Seq::<char>::empty()) == 0);
        assert(v@.subrange(0, 0) =~= Seq::<char>::empty());
        if start == 1 {
            assert(v@.subrange(0, 1).drop_last() =~= Seq::<char>::empty());
            assert(v@.subrange(0, 1).last() == '+');
        }
    }
    let mut acc: usize = 0;
    let mut i: usize = start;
    while i < v.len()
        invariant
            start <= i <= v@.len(),
            forall|k: int| start <= k < v@.len() ==> is_digit(#[trigger] v@[k]),
            acc == decimal_value(v@.subrange(0, i as int)),
            is_decimal(v@),
        decreases v@.len() - i,
    {
        let c = v[i];
        assert(is_digit(v@[i as int]));
        let d = (c as u32 - '0' as u32) as usize;
        assert(v@.subrange(0, i as int + 1).drop_last() =~= v@.subrange(0, i as int));
        assert(v@.subrange(0, i as int + 1).last() == c);
        assert(decimal_value(v@.subrange(0, i as int + 1)) == acc * 10 + d);
        if acc > (usize::MAX - d) / 10 {
            proof {
                assert(acc * 10 + d > usize::MAX) by (nonlinear_arith)
                    requires
                        acc > (usize::MAX - d) / 10,
                        0 <= d <= 9,
                ;
                lemma_decimal_monotone(v@, i as int + 1, v@.len() as int);
                assert(v@.subrange(0, v@.len() as int) =~= v@);
            }
            return None;
        }
        assert(acc * 10 + d <= usize::MAX) by (nonlinear_arith)
            requires
                acc <= (usize::MAX - d) / 10,
                0 <= d <= 9,
        ;
        acc = acc * 10 + d;
        i = i + 1;
    }
    assert(v@.subrange(0, v@.len() as int) =~= v@);
    if acc == 0 {
        None
    } else {
        Some(acc)
    }
}

fn split_word(w: &Vec<char>) -> (r: Option<(Vec<char>, Vec<char>)>)
    ensures
        match split_colon(w@) {
            Some((k, v)) => r matches Some((a, b)) && a@ == k && b@ == v,
            None => r is None,
        },
{
    let mut i: usize = 0;
    while i < w.len()
        invariant
            0 <= i <= w@.len(),
            forall|j: int| 0 <= j < i ==> w@[j] != ':',
        ensures
            0 <= i <= w@.len(),
            forall|j: int| 0 <= j < i ==> w@[j] != ':',
            i < w@.len() ==> w@[i as int] == ':',
        decreases w@.len() - i,
    {
        if w[i] == ':' {
            break;
        }
        i = i + 1;
    }
    if i == w.len() {
        return None;
    }
    proof {
        assert(w@[i as int] == ':' && forall|j: int| 0 <= j < i ==> w@[j] != ':');
        let c = choose|c: int|
            0 <= c < w@.len() && w@[c] == ':' && forall|j: int| 0 <= j < c ==> w@[j] != ':';
        if c < i {
        } else if c > i {
            assert(w@[i as int] != ':');
        }
    }
    let mut key: Vec<char> = Vec::new();
    let mut k: usize = 0;
    while k < i
        invariant
            0 <= k <= i < w@.len(),
            key@ == w@.subrange(0, k as int),
        decreases i - k,
    {
        key.push(w[k]);
        assert(key@ =~= w@.subrange(0, k as int + 1));
        k = k + 1;
    }
    let mut value: Vec<char> = Vec::new();
    let mut m: usize = i + 1;
    while m < w.len()
        invariant
            i + 1 <= m <= w@.len(),
            value@ == w@.subrange(i + 1, m as int),
        decreases w@.len() - m,
    {
        value.push(w[m]);
        assert(value@ =~= w@.subrange(i + 1, m as int + 1));
        m = m + 1;
    }
    Some((key, value))
}

/// A UTC instant: seconds and nanoseconds since the Unix epoch.
#[derive(Clone, Copy, Debug, PartialEq, Eq, Structural)]
pub struct Timestamp {
    pub seconds: i64,
    pub nanos: u32,
}

/// The text view of an optional string.
pub open spec fn opt_text(o: Option<String>) -> Option<Seq<char>> {
    match o {
        Some(s) => Some(s@),
        None => None,
    }
}

/// The instant view of an optional timestamp.
pub open spec fn opt_instant(o: Option<Timestamp>) -> Option<(i64, u32)> {
    match o {
        Some(t) => Some((t.seconds, t.nanos)),
        None => None,
    }
}

/// The language that an optional `lang:` value selects.
pub open spec fn lang_of_value(v: Option<Seq<char>>) -> Option<Language> {
    match v {
        Some(x) => Some(language_of_name(lower_of(x))),
        None => None,
    }
}

/// A parsed search query: the free text and the metadata filters.
#[derive(Clone, Debug)]
pub struct SearchQuery {
    /// The free text of the query
    pub raw_query: String,
    /// Filter on the author name or email
    pub author: Option<String>,
    /// Filter on the language
    pub lang: Option<Language>,
    /// Only results changed at or after this instant
    pub after: Option<Timestamp>,
    /// Only results changed at or before this instant
    pub before: Option<Timestamp>,
    /// Filter on the file path
    pub file_pattern: Option<String>,
    /// Maximum number of results
    pub limit: usize,
}

/// What parsing `s` gives, field by field.
pub open spec fn parses_to(s: Seq<char>, q: SearchQuery) -> bool {
    let ws = words_of(s);
    &&& q.raw_query@ == join_words(text_words(ws))
    &&& opt_text(q.author) == last_value(ws, "author"@, "author"@)
    &&& q.lang == lang_of_value(last_value(ws, "lang"@, "language"@))
    &&& opt_instant(q.after) == last_instant(ws, "after"@)
    &&& opt_instant(q.before) == last_instant(ws, "before"@)
    &&& opt_text(q.file_pattern) == last_value(ws, "file"@, "path"@)
    &&& q.limit == last_limit(ws)
}

/// The fields of a query under construction.
struct QueryParts {
    text: Vec<char>,
    n_text: usize,
    author: Option<String>,
    lang: Option<Language>,
    after: Option<(i64, u32)>,
    before: Option<(i64, u32)>,
    file_pattern: Option<String>,
    limit: usize,
}

/// `p` holds what the words `ws` give.
spec fn parts_match(p: QueryParts, ws: Seq<Seq<char>>) -> bool {
    &&& p.n_text == text_words(ws).len()
    &&& p.n_text <= ws.len()
    &&& p.text@ == join_words(text_words(ws))
    &&& opt_text(p.author) == last_value(ws, "author"@, "author"@)
    &&& p.lang == lang_of_value(last_value(ws, "lang"@, "language"@))
    &&& p.after == last_instant(ws, "after"@)
    &&& p.before == last_instant(ws, "before"@)
    &&& opt_text(p.file_pattern) == last_value(ws, "file"@, "path"@)
    &&& p.limit == last_limit(ws)
}

proof fn lemma_parts_step(pre: Seq<Seq<char>>, w: Seq<char>)
    ensures
        text_words(pre.push(w)) == (if is_filter_word(w) {
            text_words(pre)
        } else {
            text_words(pre).push(w)
        }),
        forall|k1: Seq<char>, k2: Seq<char>|
            #[trigger] last_value(pre.push(w), k1, k2) == (if key_of(w) == Some(k1) || key_of(w)
                == Some(k2) {
                Some(value_of(w))
            } else {
                last_value(pre, k1, k2)
            }),
        forall|k: Seq<char>|
            #[trigger] last_instant(pre.push(w), k) == (if key_of(w) == Some(k) && rfc3339_utc(
                value_of(w),
            ) is Some {
                rfc3339_utc(value_of(w))
            } else {
                last_instant(pre, k)
            }),
        last_limit(pre.push(w)) == (if key_of(w) == Some("limit"@) && is_limit(value_of(w)) {
            decimal_value(value_of(w))
        } else {
            last_limit(pre)
        }),
{
    let next = pre.push(w);
    assert(next.drop_last() =~= pre);
    assert(next.last() == w);
}

/// A filter of the query language.
#[derive(Clone, Copy, Debug, PartialEq, Eq, Structural)]
pub enum FilterKey {
    Author,
    Lang,
    After,
    Before,
    File,
    Limit,
}

/// The filter that a lowercase key names: `author`, `lang` or `language`,
/// `after`, `before`, `file` or `path`, `limit`; any other key names none.
pub open spec fn filter_key_of(k: Seq<char>) -> Option<FilterKey> {
    if k == "author"@ {
        Some(FilterKey::Author)
    } else if k == "lang"@ || k == "language"@ {
        Some(FilterKey::Lang)
    } else if k == "after"@ {
        Some(FilterKey::After)
    } else if k == "before"@ {
        Some(FilterKey::Before)
    } else if k == "file"@ || k == "path"@ {
        Some(FilterKey::File)
    } else if k == "limit"@ {
        Some(FilterKey::Limit)
    } else {
        None
    }
}

/// The filter that an already lowercase key names.
pub fn filter_key(lowered: &str) -> (r: Option<FilterKey>)
    ensures
        r == filter_key_of(lowered@),
{
    if text_eq(lowered, "author") {
        Some(FilterKey::Author)
    } else if text_eq(lowered, "lang") || text_eq(lowered, "language") {
        Some(FilterKey::Lang)
    } else if text_eq(lowered, "after") {
        Some(FilterKey::After)
    } else if text_eq(lowered, "before") {
        Some(FilterKey::Before)
    } else if text_eq(lowered, "file") || text_eq(lowered, "path") {
        Some(FilterKey::File)
    } else if text_eq(lowered, "limit") {
        Some(FilterKey::Limit)
    } else {
        None
    }
}

/// The filter keys differ pairwise in length or in their first character.
proof fn lemma_filter_keys_distinct()
    ensures
        "author"@.len() == 6 && "author"@[0] == 'a',
        "lang"@.len() == 4 && "lang"@[0] == 'l',
        "language"@.len() == 8 && "language"@[0] == 'l',
        "after"@.len() == 5 && "after"@[0] == 'a',
        "before"@.len() == 6 && "before"@[0] == 'b',
        "file"@.len() == 4 && "file"@[0] == 'f',
        "path"@.len() == 4 && "path"@[0] == 'p',
        "limit"@.len() == 5 && "limit"@[0] == 'l',
{
    reveal_strlit("author");
    reveal_strlit("lang");
    reveal_strlit("language");
    reveal_strlit("after");
    reveal_strlit("before");
    reveal_strlit("file");
    reveal_strlit("path");
    reveal_strlit("limit");
}

fn append_chars(text: &mut Vec<char>, w: &Vec<char>)
    ensures
        final(text)@ == old(text)@ + w@,
{
    let mut j: usize = 0;
    while j < w.len()
        invariant
            0 <= j <= w@.len(),
            text@ == old(text)@ + w@.subrange(0, j as int),
        decreases w@.len() - j,
    {
        text.push(w[j]);
        assert(text@ =~= old(text)@ + w@.subrange(0, j as int + 1));
        j = j + 1;
    }
    assert(w@.subrange(0, w@.len() as int) =~= w@);
}

#[verifier::rlimit(40)]
fn apply_word(p: &mut QueryParts, w: &Vec<char>, Ghost(pre): Ghost<Seq<Seq<char>>>)
    requires
        parts_match(*old(p), pre),
        pre.len() < usize::MAX,
    ensures
        parts_match(*final(p), pre.push(w@)),
{
    let ghost next = pre.push(w@);
    proof {
        lemma_parts_step(pre, w@);
        lemma_filter_keys_distinct();
    }
    let mut is_filter = false;
    match split_word(w) {
        Some((key, value)) => {
            let key_text = string_of(&key);
            let lowered = to_lowercase(key_text.as_str());
            let k = lowered.as_str();
            let value_text = string_of(&value);
            assert(key_of(w@) == Some(k@));
            assert(value_of(w@) == value@);
            match filter_key(k) {
                Some(FilterKey::Author) => {
                    p.author = Some(value_text);
                    is_filter = true;
                },
                Some(FilterKey::Lang) => {
                    p.lang = Some(Language::from_str(value_text.as_str()));
                    is_filter = true;
                },
                Some(FilterKey::After) => {
                    match read_rfc3339(value_text.as_str()) {
                        Some(t) => {
                            p.after = Some(t);
                        },
                        None => {},
                    }
                    is_filter = true;
                },
                Some(FilterKey::Before) => {
                    match read_rfc3339(value_text.as_str()) {
                        Some(t) => {
                            p.before = Some(t);
                        },
                        None => {},
                    }
                    is_filter = true;
                },
                Some(FilterKey::File) => {
                    p.file_pattern = Some(value_text);
                    is_filter = true;
                },
                Some(FilterKey::Limit) => {
                    match parse_limit(&value) {
                        Some(l) => {
                            p.limit = l;
                        },
                        None => {},
                    }
                    is_filter = true;
                },
                None => {},
            }
        },
        None => {},
    }
    assert(is_filter == is_filter_word(w@));
    if !is_filter {
        let ghost old_text = p.text@;
        if p.n_text > 0 {
            p.text.push(' ');
        }
        append_chars(&mut p.text, w);
        proof {
            let tw = text_words(pre);
            assert(tw.push(w@).drop_last() =~= tw);
            assert(tw.push(w@).last() == w@);
            if p.n_text == 0 {
                assert(old_text =~= Seq::<char>::empty());
                assert(tw.push(w@)[0] == w@);
                assert(p.text@ =~= w@);
            } else {
                assert(p.text@ =~= old_text + seq![' '] + w@);
            }
        }
        p.n_text = p.n_text + 1;
    }
}

impl SearchQuery {
    /// Parse a query such as `storage author:Stanley lang:rust`. Words
    /// `key:value` whose lowercase key is `author`, `lang` / `language`,
    /// `after` / `before` (RFC 3339), `file` / `path` or `limit` (a positive
    /// integer, 10 by default) set that filter, the last one winning; a filter
    /// value that does not parse is dropped. All other words, unknown
    /// `key:value` ones included, form the text, joined by single spaces.
    pub fn parse(input: &str) -> (q: SearchQuery)
        ensures
            parses_to(input@, q),
    {
        let words = split_words(input);
        let ghost ws = words_of(input@);
        let mut p = QueryParts {
            text: Vec::new(),
            n_text: 0,
            author: None,
            lang: None,
            after: None,
            before: None,
            file_pattern: None,
            limit: 10,
        };
        assert(ws.subrange(0, 0) =~= Seq::<Seq<char>>::empty());
        let mut i: usize = 0;
        while i < words.len()
            invariant
                words@.len() == ws.len(),
                forall|k: int| 0 <= k < words@.len() ==> (#[trigger] words@[k])@ == ws[k],
                0 <= i <= ws.len(),
                parts_match(p, ws.subrange(0, i as int)),
            decreases ws.len() - i,
        {
            assert(ws.subrange(0, i as int).push(words@[i as int]@) =~= ws.subrange(0, i as int + 1));
            apply_word(&mut p, &words[i], Ghost(ws.subrange(0, i as int)));
            i = i + 1;
        }
        assert(ws.subrange(0, ws.len() as int) =~= ws);
        SearchQuery {
            raw_query: string_of(&p.text),
            author: p.author,
            lang: p.lang,
            after: match p.after {
                Some((s, n)) => Some(Timestamp { seconds: s, nanos: n }),
                None => None,
            },
            before: match p.before {
                Some((s, n)) => Some(Timestamp { seconds: s, nanos: n }),
                None => None,
            },
            file_pattern: p.file_pattern,
            limit: p.limit,
        }
    }
}

} // verus!
