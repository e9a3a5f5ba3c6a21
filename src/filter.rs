//! The filter stage of the hybrid query: the candidate chunks that the
//! query's metadata filters admit, and the restriction of a ranking to them.
use crate::chunk::{Chunk, ChunkLocation};
use crate::content_hash::ContentHash;
use crate::fusion::{distinct_hashes, reciprocal_rank_fusion, FusedCandidate};
use crate::query::{read_rfc3339, rfc3339_utc, SearchQuery, Timestamp};
use crate::store::IndexStore;
use crate::text::{chars_of, contains_chars, contains_seq};
use vstd::prelude::*;

verus! {

/// The instant `a` is at or after the instant `b`.
pub open spec fn instant_ge(a: (i64, u32), b: Timestamp) -> bool {
    a.0 > b.seconds || (a.0 == b.seconds && a.1 >= b.nanos)
}

/// The instant `a` is at or before the instant `b`.
pub open spec fn instant_le(a: (i64, u32), b: Timestamp) -> bool {
    a.0 < b.seconds || (a.0 == b.seconds && a.1 <= b.nanos)
}

/// Some filter of the query reads the chunk's locations.
pub open spec fn has_location_filter(q: SearchQuery) -> bool {
    q.author is Some || q.file_pattern is Some || q.after is Some || q.before is Some
}

/// Location `l` meets every location filter of the query: the author holds
/// the author filter, the path holds the file filter, and the timestamp is
/// within the date filters.
pub open spec fn location_passes(l: ChunkLocation, q: SearchQuery) -> bool {
    &&& (q.author matches Some(a) ==> (l.author matches Some(x) && contains_seq(x@, a@)))
    &&& (q.file_pattern matches Some(p) ==> contains_seq(l.file_path@, p@))
    &&& (q.after matches Some(t) ==> (l.timestamp matches Some(ts) && (rfc3339_utc(ts@) matches Some(
        i,
    ) && instant_ge(i, t))))
    &&& (q.before matches Some(t) ==> (l.timestamp matches Some(ts) && (rfc3339_utc(ts@) matches Some(
        i,
    ) && instant_le(i, t))))
}

/// The instant of a location's timestamp, where it has a valid one.
pub open spec fn instant_of(l: ChunkLocation) -> Option<(i64, u32)> {
    match l.timestamp {
        Some(ts) => rfc3339_utc(ts@),
        None => None,
    }
}

/// Instant `a` is strictly later than `b`; a missing instant is the earliest.
pub open spec fn later(a: Option<(i64, u32)>, b: Option<(i64, u32)>) -> bool {
    match (a, b) {
        (Some(x), Some(y)) => x.0 > y.0 || (x.0 == y.0 && x.1 > y.1),
        (Some(_), None) => true,
        _ => false,
    }
}

/// Location `k` is the most recent location of chunk `h`: no location of
/// `h` is later, and of equally recent ones it was stored last.
pub open spec fn is_latest(locations: Seq<ChunkLocation>, h: Seq<u8>, k: int) -> bool {
    &&& 0 <= k < locations.len()
    &&& locations[k].content_hash@ == h
    &&& forall|j: int|
        0 <= j < locations.len() && (#[trigger] locations[j]).content_hash@ == h ==> !later(
            instant_of(locations[j]),
            instant_of(locations[k]),
        ) && (instant_of(locations[j]) == instant_of(locations[k]) ==> j <= k)
}

/// Chunk `c` meets the query's filters: its language, and its most recent
/// location meets the location filters, where there are such filters.
pub open spec fn chunk_passes(locations: Seq<ChunkLocation>, c: Chunk, q: SearchQuery) -> bool {
    &&& (q.lang matches Some(l) ==> c.language == l)
    &&& (has_location_filter(q) ==> exists|k: int|
        #[trigger] is_latest(locations, c.content_hash@, k) && location_passes(locations[k], q))
}

proof fn lemma_latest_unique(locations: Seq<ChunkLocation>, h: Seq<u8>, a: int, b: int)
    requires
        is_latest(locations, h, a),
        is_latest(locations, h, b),
    ensures
        a == b,
{
    assert(!later(instant_of(locations[a]), instant_of(locations[b])));
    assert(!later(instant_of(locations[b]), instant_of(locations[a])));
    assert(instant_of(locations[a]) == instant_of(locations[b]));
}

fn instant_exec(l: &ChunkLocation) -> (r: Option<(i64, u32)>)
    ensures
        r == instant_of(*l),
{
    match &l.timestamp {
        Some(ts) => read_rfc3339(ts.as_str()),
        None => None,
    }
}

fn later_exec(a: Option<(i64, u32)>, b: Option<(i64, u32)>) -> (r: bool)
    ensures
        r == later(a, b),
{
    match (a, b) {
        (Some(x), Some(y)) => x.0 > y.0 || (x.0 == y.0 && x.1 > y.1),
        (Some(_), None) => true,
        _ => false,
    }
}

/// The position of the most recent location of chunk `h`, if it has one.
pub fn latest_location(store: &IndexStore, h: &ContentHash) -> (r: Option<usize>)
    ensures
        r matches Some(k) ==> is_latest(store.locations@, h@, k as int),
        r is None ==> forall|j: int| 0 <= j < store.locations@.len() ==> (#[trigger] store.locations@[j]).content_hash@ != h@,
{
    let locs = &store.locations;
    let mut best: Option<usize> = None;
    let mut best_inst: Option<(i64, u32)> = None;
    let mut i: usize = 0;
    while i < locs.len()
        invariant
            0 <= i <= locs@.len(),
            best matches Some(b) ==> b < i && locs@[b as int].content_hash@ == h@ && best_inst == instant_of(locs@[b as int])
                && forall|j: int| 0 <= j < i && (#[trigger] locs@[j]).content_hash@ == h@ ==> !later(
                    instant_of(locs@[j]),
                    instant_of(locs@[b as int]),
                ) && (instant_of(locs@[j]) == instant_of(locs@[b as int]) ==> j <= b),
            best is None ==> forall|j: int| 0 <= j < i ==> (#[trigger] locs@[j]).content_hash@ != h@,
        decreases locs@.len() - i,
    {
        if locs[i].content_hash == *h {
            let t = instant_exec(&locs[i]);
            match best {
                None => {
                    best = Some(i);
                    best_inst = t;
                },
                Some(b) => {
                    let same = match (t, best_inst) {
                        (Some(x), Some(y)) => x.0 == y.0 && x.1 == y.1,
                        (None, None) => true,
                        _ => false,
                    };
                    if later_exec(t, best_inst) || same {
                        proof {
                            if same {
                                assert(t == best_inst);
                            }
                        }
                        best = Some(i);
                        best_inst = t;
                    }
                },
            }
        }
        i = i + 1;
    }
    best
}

fn opt_contains(o: &Option<String>, p: &str) -> (r: bool)
    ensures
        r == (o matches Some(x) && contains_seq(x@, p@)),
{
    match o {
        Some(x) => contains_chars(&chars_of(x.as_str()), &chars_of(p)),
        None => false,
    }
}

fn location_passes_exec(l: &ChunkLocation, q: &SearchQuery) -> (r: bool)
    ensures
        r == location_passes(*l, *q),
{
    if let Some(a) = &q.author {
        if !opt_contains(&l.author, a.as_str()) {
            return false;
        }
    }
    if let Some(p) = &q.file_pattern {
        if !contains_chars(&chars_of(l.file_path.as_str()), &chars_of(p.as_str())) {
            return false;
        }
    }
    if let Some(t) = &q.after {
        let ok = match &l.timestamp {
            Some(ts) => match read_rfc3339(ts.as_str()) {
                Some(i) => i.0 > t.seconds || (i.0 == t.seconds && i.1 >= t.nanos),
                None => false,
            },
            None => false,
        };
        if !ok {
            return false;
        }
    }
    if let Some(t) = &q.before {
        let ok = match &l.timestamp {
            Some(ts) => match read_rfc3339(ts.as_str()) {
                Some(i) => i.0 < t.seconds || (i.0 == t.seconds && i.1 <= t.nanos),
                None => false,
            },
            None => false,
        };
        if !ok {
            return false;
        }
    }
    true
}

fn chunk_passes_exec(store: &IndexStore, c: &Chunk, q: &SearchQuery) -> (r: bool)
    ensures
        r == chunk_passes(store.locations@, *c, *q),
{
    if let Some(l) = q.lang {
        if c.language != l {
            return false;
        }
    }
    if !(q.author.is_some() || q.file_pattern.is_some() || q.after.is_some() || q.before.is_some()) {
        return true;
    }
    match latest_location(store, &c.content_hash) {
        Some(k) => {
            let r = location_passes_exec(&store.locations[k], q);
            proof {
                if !r {
                    if exists|k2: int| #[trigger] is_latest(store.locations@, c.content_hash@, k2) && location_passes(store.locations@[k2], *q) {
                        let k2 = choose|k2: int| #[trigger] is_latest(store.locations@, c.content_hash@, k2) && location_passes(store.locations@[k2], *q);
                        lemma_latest_unique(store.locations@, c.content_hash@, k as int, k2);
                    }
                }
            }
            r
        },
        None => false,
    }
}

/// Some chunk among the first `n` of `chunks` has hash `h` and meets the filters.
pub open spec fn passing_with_hash(
    chunks: Seq<Chunk>,
    locations: Seq<ChunkLocation>,
    h: ContentHash,
    q: SearchQuery,
    n: int,
) -> bool {
    exists|j: int|
        #![trigger chunks[j]]
        0 <= j && j < n && chunks[j].content_hash == h && chunk_passes(locations, chunks[j], q)
}

/// The candidate set of the query: `None` (every chunk) where the query sets
/// no filter, else the hashes of the stored chunks that meet its filters, in
/// order of storage.
pub fn candidate_set(store: &IndexStore, q: &SearchQuery) -> (r: Option<Vec<ContentHash>>)
    ensures
        r is None <==> !(has_location_filter(*q) || q.lang is Some),
        r matches Some(v) ==> v@.len() <= store.chunks@.len() && (forall|i: int|
            0 <= i && i < v@.len() ==> passing_with_hash(
                store.chunks@,
                store.locations@,
                #[trigger] v@[i],
                *q,
                store.chunks@.len() as int,
            )) && (forall|c: int|
            0 <= c && c < store.chunks@.len() && chunk_passes(store.locations@, #[trigger] store.chunks@[c], *q)
                ==> v@.contains(store.chunks@[c].content_hash)),
{
    if !(q.author.is_some() || q.file_pattern.is_some() || q.after.is_some() || q.before.is_some()
        || q.lang.is_some()) {
        return None;
    }
    let mut out: Vec<ContentHash> = Vec::new();
    let mut c: usize = 0;
    while c < store.chunks.len()
        invariant
            0 <= c <= store.chunks@.len(),
            out@.len() <= c,
            forall|i: int|
                0 <= i && i < out@.len() ==> passing_with_hash(
                    store.chunks@,
                    store.locations@,
                    #[trigger] out@[i],
                    *q,
                    c as int,
                ),
            forall|j: int|
                0 <= j && j < c && chunk_passes(store.locations@, #[trigger] store.chunks@[j], *q)
                    ==> out@.contains(store.chunks@[j].content_hash),
        decreases store.chunks@.len() - c,
    {
        let ghost before = out@;
        let passes = chunk_passes_exec(store, &store.chunks[c], q);
        if passes {
            out.push(store.chunks[c].content_hash);
        }
        proof {
            assert forall|i: int| 0 <= i && i < out@.len() implies passing_with_hash(
                store.chunks@,
                store.locations@,
                #[trigger] out@[i],
                *q,
                c + 1,
            ) by {
                if i < before.len() {
                    assert(out@[i] == before[i]);
                    assert(passing_with_hash(store.chunks@, store.locations@, before[i], *q, c as int));
                    let j = choose|j: int|
                        #![trigger store.chunks@[j]]
                        0 <= j && j < c && store.chunks@[j].content_hash == before[i] && chunk_passes(
                            store.locations@,
                            store.chunks@[j],
                            *q,
                        );
                    assert(store.chunks@[j].content_hash == out@[i]);
                } else {
                    assert(store.chunks@[c as int].content_hash == out@[i]);
                }
            }
            assert forall|j: int|
                0 <= j && j < c + 1 && chunk_passes(store.locations@, #[trigger] store.chunks@[j], *q)
                    implies out@.contains(store.chunks@[j].content_hash) by {
                if j < c {
                    let w = choose|w: int| 0 <= w && w < before.len() && before[w] == store.chunks@[j].content_hash;
                    assert(out@[w] == before[w]);
                } else {
                    assert(out@[out@.len() - 1] == store.chunks@[j].content_hash);
                }
            }
        }
        c = c + 1;
    }
    Some(out)
}

/// `h` is admitted by the candidate set.
pub open spec fn admitted(allowed: Option<Seq<ContentHash>>, h: Seq<u8>) -> bool {
    allowed is None || listed(allowed->0, h)
}

/// `h` is the hash of an entry of `v`.
pub open spec fn listed(v: Seq<ContentHash>, h: Seq<u8>) -> bool {
    exists|i: int| 0 <= i && i < v.len() && (#[trigger] v[i])@ == h
}

/// The entries of `list` that the candidate set admits, in order.
pub open spec fn restricted(list: Seq<ContentHash>, allowed: Option<Seq<ContentHash>>) -> Seq<ContentHash>
    decreases list.len(),
{
    if list.len() == 0 {
        Seq::empty()
    } else if admitted(allowed, list.last()@) {
        restricted(list.drop_last(), allowed).push(list.last())
    } else {
        restricted(list.drop_last(), allowed)
    }
}

fn contains_hash(v: &Vec<ContentHash>, h: &ContentHash) -> (r: bool)
    ensures
        r == admitted(Some(v@), h@),
{
    let mut i: usize = 0;
    while i < v.len()
        invariant
            0 <= i <= v@.len(),
            forall|j: int| 0 <= j && j < i ==> (#[trigger] v@[j])@ != h@,
        decreases v@.len() - i,
    {
        if v[i] == *h {
            assert(v@[i as int]@ == h@);
            assert(listed(v@, h@));
            return true;
        }
        i = i + 1;
    }
    false
}

fn admitted_exec(allowed: &Option<Vec<ContentHash>>, h: &ContentHash) -> (r: bool)
    ensures
        r == admitted(
            match allowed {
                Some(v) => Some(v@),
                None => None,
            },
            h@,
        ),
{
    match allowed {
        None => true,
        Some(v) => contains_hash(v, h),
    }
}

/// Keep the entries of a ranking that the candidate set admits, in order.
pub fn restrict(list: &Vec<ContentHash>, allowed: &Option<Vec<ContentHash>>) -> (r: Vec<ContentHash>)
    ensures
        r@ == restricted(
            list@,
            match allowed {
                Some(v) => Some(v@),
                None => None,
            },
        ),
        distinct_hashes(list@) ==> distinct_hashes(r@),
        r@.len() <= list@.len(),
{
    let ghost al = match allowed {
        Some(v) => Some(v@),
        None => None,
    };
    let mut out: Vec<ContentHash> = Vec::new();
    let mut i: usize = 0;
    while i < list.len()
        invariant
            al == match allowed {
                Some(v) => Some(v@),
                None => None::<Seq<ContentHash>>,
            },
            0 <= i <= list@.len(),
            out@ == restricted(list@.subrange(0, i as int), al),
            out@.len() <= i,
            forall|k: int| 0 <= k && k < out@.len() ==> exists|j: int| 0 <= j && j < i && (#[trigger] out@[k]) == list@[j],
            distinct_hashes(list@) ==> distinct_hashes(out@),
        decreases list@.len() - i,
    {
        assert(list@.subrange(0, i as int + 1).drop_last() =~= list@.subrange(0, i as int));
        if admitted_exec(allowed, &list[i]) {
            let ghost before = out@;
            out.push(list[i]);
            proof {
                assert forall|k: int| 0 <= k && k < out@.len() implies exists|j: int| 0 <= j && j < i + 1 && (#[trigger] out@[k]) == list@[j] by {
                    if k < before.len() {
                        assert(out@[k] == before[k]);
                    } else {
                        assert(out@[k] == list@[i as int]);
                    }
                }
                if distinct_hashes(list@) {
                    assert forall|a: int, b: int| 0 <= a && a < b < out@.len() implies (#[trigger] out@[a])@ != (#[trigger] out@[b])@ by {
                        if b < before.len() {
                            assert(before[a]@ != before[b]@);
                        } else {
                            let j = choose|j: int| 0 <= j && j < i && before[a] == list@[j];
                            assert(list@[j]@ != list@[i as int]@);
                        }
                    }
                }
            }
        }
        i = i + 1;
    }
    assert(list@.subrange(0, list@.len() as int) =~= list@);
    out
}

/// The hybrid ranking: both rankings (each best first, without repeats)
/// restricted to the candidate set, fused by reciprocal rank, best `limit` first.
pub fn hybrid_rank(
    vector: &Vec<ContentHash>,
    lexical: &Vec<ContentHash>,
    allowed: &Option<Vec<ContentHash>>,
    limit: usize,
) -> (r: Vec<FusedCandidate>)
    requires
        distinct_hashes(vector@),
        distinct_hashes(lexical@),
        vector@.len() <= 0xffff_ffff,
        lexical@.len() <= 0xffff_ffff,
    ensures
        ({
            let al = match allowed {
                Some(v) => Some(v@),
                None => None,
            };
            let v = restricted(vector@, al);
            let l = restricted(lexical@, al);
            &&& r@.len() <= limit
            &&& forall|k: int| 0 <= k && k < r@.len() ==> crate::fusion::candidate_of(v, l, #[trigger] r@[k])
            &&& forall|i: int, j: int|
                0 <= i && i < j < r@.len() ==> crate::fusion::ranks_before(#[trigger] r@[i], #[trigger] r@[j])
            &&& forall|c: FusedCandidate, k: int|
                crate::fusion::candidate_of(v, l, c) && !crate::fusion::has_candidate(r@, c.hash@) && 0
                    <= k < r@.len() ==> #[trigger] crate::fusion::ranks_before(r@[k], c)
            &&& r@.len() < limit ==> forall|h: Seq<u8>|
                (crate::fusion::occurs(v, h) || crate::fusion::occurs(l, h)) ==> #[trigger] crate::fusion::has_candidate(r@, h)
        }),
{
    let v = restrict(vector, allowed);
    let l = restrict(lexical, allowed);
    reciprocal_rank_fusion(&v, &l, limit)
}

} // verus!
