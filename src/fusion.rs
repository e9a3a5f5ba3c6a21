//! Reciprocal-rank fusion of the vector and lexical result lists.
use crate::content_hash::ContentHash;
use vstd::prelude::*;

verus! {

/// The fusion constant `k` of `1 / (k + rank)`.
pub const RRF_K: u128 = 60;

/// A candidate of the fused ranking, with its 1-indexed rank in the vector
/// list and in the lexical list, where it appears in them.
#[derive(Clone, Copy, Debug)]
pub struct FusedCandidate {
    pub hash: ContentHash,
    pub vector_rank: Option<usize>,
    pub lexical_rank: Option<usize>,
}

/// Numerator of the fused score `Σ 1 / (60 + rank)` of `c`, over the
/// denominator `rrf_den(c)`.
pub open spec fn rrf_num(c: FusedCandidate) -> int {
    match (c.vector_rank, c.lexical_rank) {
        (Some(a), Some(b)) => (60 + a) + (60 + b),
        (Some(_), None) => 1,
        (None, Some(_)) => 1,
        (None, None) => 0,
    }
}

/// Denominator of the fused score of `c`.
pub open spec fn rrf_den(c: FusedCandidate) -> int {
    match (c.vector_rank, c.lexical_rank) {
        (Some(a), Some(b)) => (60 + a) * (60 + b),
        (Some(a), None) => 60 + a,
        (None, Some(b)) => 60 + b,
        (None, None) => 1,
    }
}

/// The fused score of `a` is strictly greater than that of `b`.
pub open spec fn scores_above(a: FusedCandidate, b: FusedCandidate) -> bool {
    rrf_num(a) * rrf_den(b) > rrf_num(b) * rrf_den(a)
}

/// `a` is lexicographically below `b`.
pub open spec fn hash_lt(a: Seq<u8>, b: Seq<u8>) -> bool {
    exists|i: int|
        0 <= i < a.len() && i < b.len() && a[i] < b[i] && forall|j: int|
            0 <= j < i ==> #[trigger] a[j] == b[j]
}

/// `a` comes before `b` in the final order: higher fused score first, then
/// lower content hash.
pub open spec fn ranks_before(a: FusedCandidate, b: FusedCandidate) -> bool {
    scores_above(a, b) || (!scores_above(b, a) && hash_lt(a.hash@, b.hash@))
}

/// `r` is the 1-indexed position of `h` in `list`, or `None` where `h` is
/// not in it.
pub open spec fn ranked_at(list: Seq<ContentHash>, h: Seq<u8>, r: Option<usize>) -> bool {
    match r {
        Some(x) => 1 <= x <= list.len() && list[x - 1]@ == h,
        None => forall|i: int| 0 <= i < list.len() ==> (#[trigger] list[i])@ != h,
    }
}

/// No hash occurs twice in `list`.
pub open spec fn distinct_hashes(list: Seq<ContentHash>) -> bool {
    forall|i: int, j: int| 0 <= i < j < list.len() ==> (#[trigger] list[i])@ != (#[trigger] list[j])@
}

/// `h` occurs in `list`.
pub open spec fn occurs(list: Seq<ContentHash>, h: Seq<u8>) -> bool {
    exists|i: int| 0 <= i < list.len() && (#[trigger] list[i])@ == h
}

/// `c` is the candidate of its hash for the two lists.
pub open spec fn candidate_of(
    vector: Seq<ContentHash>,
    lexical: Seq<ContentHash>,
    c: FusedCandidate,
) -> bool {
    &&& ranked_at(vector, c.hash@, c.vector_rank)
    &&& ranked_at(lexical, c.hash@, c.lexical_rank)
    &&& (c.vector_rank is Some || c.lexical_rank is Some)
}

proof fn lemma_hash_lt_transitive(a: Seq<u8>, b: Seq<u8>, c: Seq<u8>)
    requires
        hash_lt(a, b),
        hash_lt(b, c),
    ensures
        hash_lt(a, c),
{
    let i = choose|i: int|
        0 <= i < a.len() && i < b.len() && a[i] < b[i] && forall|j: int|
            0 <= j < i ==> #[trigger] a[j] == b[j];
    let k = choose|k: int|
        0 <= k < b.len() && k < c.len() && b[k] < c[k] && forall|j: int|
            0 <= j < k ==> #[trigger] b[j] == c[j];
    let m = if i < k {
        i
    } else {
        k
    };
    assert(a[m] < c[m]);
    assert forall|j: int| 0 <= j < m implies #[trigger] a[j] == c[j] by {
        assert(a[j] == b[j]);
        assert(b[j] == c[j]);
    }
}

proof fn lemma_den_positive(c: FusedCandidate)
    ensures
        rrf_den(c) > 0,
        rrf_num(c) >= 0,
{
    match (c.vector_rank, c.lexical_rank) {
        (Some(a), Some(b)) => {
            assert((60 + a) * (60 + b) > 0) by (nonlinear_arith)
                requires
                    a >= 0,
                    b >= 0,
            ;
        },
        _ => {},
    }
}

proof fn lemma_scores_above_transitive(a: FusedCandidate, b: FusedCandidate, c: FusedCandidate)
    requires
        scores_above(a, b),
        scores_above(b, c),
    ensures
        scores_above(a, c),
{
    lemma_den_positive(a);
    lemma_den_positive(b);
    lemma_den_positive(c);
    let (na, da, nb, db, nc, dc) = (
        rrf_num(a),
        rrf_den(a),
        rrf_num(b),
        rrf_den(b),
        rrf_num(c),
        rrf_den(c),
    );
    assert(na * dc > nc * da) by (nonlinear_arith)
        requires
            na * db > nb * da,
            nb * dc > nc * db,
            da > 0,
            db > 0,
            dc > 0,
    ;
}

proof fn lemma_not_scores_above_transitive(a: FusedCandidate, b: FusedCandidate, c: FusedCandidate)
    requires
        !scores_above(a, b),
        !scores_above(b, c),
    ensures
        !scores_above(a, c),
{
    lemma_den_positive(a);
    lemma_den_positive(b);
    lemma_den_positive(c);
    let (na, da, nb, db, nc, dc) = (
        rrf_num(a),
        rrf_den(a),
        rrf_num(b),
        rrf_den(b),
        rrf_num(c),
        rrf_den(c),
    );
    assert(na * dc <= nc * da) by (nonlinear_arith)
        requires
            na * db <= nb * da,
            nb * dc <= nc * db,
            da > 0,
            db > 0,
            dc > 0,
    ;
}

proof fn lemma_ranks_before_transitive(a: FusedCandidate, b: FusedCandidate, c: FusedCandidate)
    requires
        ranks_before(a, b),
        ranks_before(b, c),
    ensures
        ranks_before(a, c),
{
    if scores_above(a, b) && scores_above(b, c) {
        lemma_scores_above_transitive(a, b, c);
    } else if scores_above(a, b) {
        // b and c score equally
        if !scores_above(a, c) {
            lemma_not_scores_above_transitive(c, b, a);
            lemma_not_scores_above_transitive(a, c, b);
        }
    } else if scores_above(b, c) {
        // a and b score equally
        if !scores_above(a, c) {
            lemma_not_scores_above_transitive(b, a, c);
        }
    } else {
        lemma_hash_lt_transitive(a.hash@, b.hash@, c.hash@);
        lemma_not_scores_above_transitive(c, b, a);
    }
}

proof fn lemma_ranks_before_irreflexive(a: FusedCandidate)
    ensures
        !ranks_before(a, a),
{
}

fn hash_less(a: &ContentHash, b: &ContentHash) -> (r: bool)
    ensures
        r == hash_lt(a@, b@),
{
    let mut i: usize = 0;
    while i < 32
        invariant
            0 <= i <= 32,
            a@.len() == 32,
            b@.len() == 32,
            forall|j: int| 0 <= j < i ==> #[trigger] a@[j] == b@[j],
        decreases 32 - i,
    {
        if a.0[i] < b.0[i] {
            assert(a@[i as int] < b@[i as int]);
            return true;
        }
        if a.0[i] > b.0[i] {
            assert(!hash_lt(a@, b@)) by {
                if hash_lt(a@, b@) {
                    let k = choose|k: int|
                        0 <= k < a@.len() && k < b@.len() && a@[k] < b@[k] && forall|j: int|
                            0 <= j < k ==> #[trigger] a@[j] == b@[j];
                    if k > i {
                        assert(a@[i as int] == b@[i as int]);
                    }
                }
            }
            return false;
        }
        i = i + 1;
    }
    false
}

/// Ranks are small enough for exact fused-score arithmetic.
pub open spec fn ranks_bounded(c: FusedCandidate) -> bool {
    &&& (c.vector_rank matches Some(a) ==> a <= 0xffff_ffff)
    &&& (c.lexical_rank matches Some(b) ==> b <= 0xffff_ffff)
}

fn score_parts(c: &FusedCandidate) -> (r: (u128, u128))
    requires
        ranks_bounded(*c),
    ensures
        r.0 as int == rrf_num(*c),
        r.1 as int == rrf_den(*c),
        r.0 <= 0x3_0000_0000,
        1 <= r.1 <= 0x2_0000_0000_0000_0000,
{
    match (c.vector_rank, c.lexical_rank) {
        (Some(a), Some(b)) => {
            let x = RRF_K + a as u128;
            let y = RRF_K + b as u128;
            assert(1 <= x * y <= 0x2_0000_0000_0000_0000) by (nonlinear_arith)
                requires
                    1 <= x <= 0x1_0000_0040,
                    1 <= y <= 0x1_0000_0040,
            ;
            (x + y, x * y)
        },
        (Some(a), None) => (1, RRF_K + a as u128),
        (None, Some(b)) => (1, RRF_K + b as u128),
        (None, None) => (0, 1),
    }
}

fn scores_above_exec(a: &FusedCandidate, b: &FusedCandidate) -> (r: bool)
    requires
        ranks_bounded(*a),
        ranks_bounded(*b),
    ensures
        r == scores_above(*a, *b),
{
    let (na, da) = score_parts(a);
    let (nb, db) = score_parts(b);
    assert(na * db <= 0x3_0000_0000 * 0x2_0000_0000_0000_0000) by (nonlinear_arith)
        requires
            na <= 0x3_0000_0000,
            db <= 0x2_0000_0000_0000_0000,
    ;
    assert(nb * da <= 0x3_0000_0000 * 0x2_0000_0000_0000_0000) by (nonlinear_arith)
        requires
            nb <= 0x3_0000_0000,
            da <= 0x2_0000_0000_0000_0000,
    ;
    na * db > nb * da
}

fn ranks_before_exec(a: &FusedCandidate, b: &FusedCandidate) -> (r: bool)
    requires
        ranks_bounded(*a),
        ranks_bounded(*b),
    ensures
        r == ranks_before(*a, *b),
{
    if scores_above_exec(a, b) {
        true
    } else if scores_above_exec(b, a) {
        false
    } else {
        hash_less(&a.hash, &b.hash)
    }
}

proof fn lemma_hash_lt_total_from(a: Seq<u8>, b: Seq<u8>, i: int)
    requires
        0 <= i <= a.len(),
        a.len() == b.len(),
        forall|j: int| 0 <= j < i ==> #[trigger] a[j] == b[j],
        a != b,
    ensures
        hash_lt(a, b) || hash_lt(b, a),
    decreases a.len() - i,
{
    if i == a.len() {
        assert(a =~= b);
    } else if a[i] != b[i] {
        if a[i] < b[i] {
            assert(hash_lt(a, b));
        } else {
            assert forall|j: int| 0 <= j < i implies #[trigger] b[j] == a[j] by {
                assert(a[j] == b[j]);
            }
            assert(hash_lt(b, a));
        }
    } else {
        lemma_hash_lt_total_from(a, b, i + 1);
    }
}

/// Two candidates with different hashes are ordered one way or the other.
proof fn lemma_ranks_before_total(a: FusedCandidate, b: FusedCandidate)
    requires
        a.hash@ != b.hash@,
    ensures
        ranks_before(a, b) || ranks_before(b, a),
{
    lemma_hash_lt_total_from(a.hash@, b.hash@, 0);
}

fn position_of(list: &Vec<ContentHash>, h: &ContentHash) -> (r: Option<usize>)
    ensures
        r matches Some(i) ==> i < list@.len() && list@[i as int]@ == h@,
        r is None ==> forall|i: int| 0 <= i < list@.len() ==> (#[trigger] list@[i])@ != h@,
{
    let mut i: usize = 0;
    while i < list.len()
        invariant
            0 <= i <= list@.len(),
            forall|j: int| 0 <= j < i ==> (#[trigger] list@[j])@ != h@,
        decreases list@.len() - i,
    {
        if list[i] == *h {
            return Some(i);
        }
        i = i + 1;
    }
    None
}

proof fn lemma_candidate_unique(
    vector: Seq<ContentHash>,
    lexical: Seq<ContentHash>,
    a: FusedCandidate,
    b: FusedCandidate,
)
    requires
        distinct_hashes(vector),
        distinct_hashes(lexical),
        candidate_of(vector, lexical, a),
        candidate_of(vector, lexical, b),
        a.hash@ == b.hash@,
    ensures
        a.vector_rank == b.vector_rank,
        a.lexical_rank == b.lexical_rank,
{
    match (a.vector_rank, b.vector_rank) {
        (Some(x), Some(y)) => {
            if x < y {
                assert(vector[x - 1]@ != vector[y - 1]@);
            } else if y < x {
                assert(vector[y - 1]@ != vector[x - 1]@);
            }
        },
        (Some(x), None) => {
            assert(vector[x - 1]@ != b.hash@);
        },
        (None, Some(y)) => {
            assert(vector[y - 1]@ != a.hash@);
        },
        (None, None) => {},
    }
    match (a.lexical_rank, b.lexical_rank) {
        (Some(x), Some(y)) => {
            if x < y {
                assert(lexical[x - 1]@ != lexical[y - 1]@);
            } else if y < x {
                assert(lexical[y - 1]@ != lexical[x - 1]@);
            }
        },
        (Some(x), None) => {
            assert(lexical[x - 1]@ != b.hash@);
        },
        (None, Some(y)) => {
            assert(lexical[y - 1]@ != a.hash@);
        },
        (None, None) => {},
    }
}

/// The hashes of `cands` are pairwise different.
pub open spec fn distinct_candidates(cands: Seq<FusedCandidate>) -> bool {
    forall|i: int, j: int|
        0 <= i < j < cands.len() ==> (#[trigger] cands[i]).hash@ != (#[trigger] cands[j]).hash@
}

/// `h` is the hash of some candidate of `cands`.
pub open spec fn has_candidate(cands: Seq<FusedCandidate>, h: Seq<u8>) -> bool {
    exists|k: int| 0 <= k < cands.len() && (#[trigger] cands[k]).hash@ == h
}

fn collect_candidates(vector: &Vec<ContentHash>, lexical: &Vec<ContentHash>) -> (cands: Vec<
    FusedCandidate,
>)
    requires
        distinct_hashes(vector@),
        distinct_hashes(lexical@),
        vector@.len() <= 0xffff_ffff,
        lexical@.len() <= 0xffff_ffff,
    ensures
        forall|k: int|
            0 <= k < cands@.len() ==> candidate_of(vector@, lexical@, #[trigger] cands@[k])
                && ranks_bounded(cands@[k]),
        distinct_candidates(cands@),
        forall|i: int| 0 <= i < vector@.len() ==> has_candidate(cands@, (#[trigger] vector@[i])@),
        forall|i: int| 0 <= i < lexical@.len() ==> has_candidate(cands@, (#[trigger] lexical@[i])@),
{
    let mut cands: Vec<FusedCandidate> = Vec::new();
    let mut i: usize = 0;
    while i < vector.len()
        invariant
            distinct_hashes(vector@),
            vector@.len() <= 0xffff_ffff,
            lexical@.len() <= 0xffff_ffff,
            0 <= i <= vector@.len(),
            cands@.len() == i,
            forall|k: int| 0 <= k < i ==> (#[trigger] cands@[k]).hash@ == vector@[k]@,
            forall|k: int|
                0 <= k < cands@.len() ==> candidate_of(vector@, lexical@, #[trigger] cands@[k])
                    && ranks_bounded(cands@[k]),
        decreases vector@.len() - i,
    {
        let h = vector[i];
        let lexical_rank = match position_of(lexical, &h) {
            Some(p) => Some(p + 1),
            None => None,
        };
        cands.push(FusedCandidate { hash: h, vector_rank: Some(i + 1), lexical_rank });
        i = i + 1;
    }
    assert(distinct_candidates(cands@)) by {
        assert forall|a: int, b: int| 0 <= a < b < cands@.len() implies (#[trigger] cands@[a]).hash@
            != (#[trigger] cands@[b]).hash@ by {
            assert(vector@[a]@ != vector@[b]@);
        }
    }
    assert forall|k: int| 0 <= k < vector@.len() implies has_candidate(
        cands@,
        (#[trigger] vector@[k])@,
    ) by {
        assert(cands@[k].hash@ == vector@[k]@);
    }
    let mut j: usize = 0;
    while j < lexical.len()
        invariant
            distinct_hashes(vector@),
            distinct_hashes(lexical@),
            vector@.len() <= 0xffff_ffff,
            lexical@.len() <= 0xffff_ffff,
            0 <= j <= lexical@.len(),
            forall|k: int|
                0 <= k < cands@.len() ==> candidate_of(vector@, lexical@, #[trigger] cands@[k])
                    && ranks_bounded(cands@[k]),
            distinct_candidates(cands@),
            forall|k: int|
                0 <= k < cands@.len() ==> occurs(vector@, (#[trigger] cands@[k]).hash@) || exists|
                    q: int,
                |
                    0 <= q < j && (#[trigger] lexical@[q])@ == cands@[k].hash@,
            forall|k: int|
                0 <= k < vector@.len() ==> has_candidate(cands@, (#[trigger] vector@[k])@),
            forall|k: int| 0 <= k < j ==> has_candidate(cands@, (#[trigger] lexical@[k])@),
        decreases lexical@.len() - j,
    {
        let h = lexical[j];
        let ghost before = cands@;
        if position_of(vector, &h).is_none() {
            proof {
                assert forall|k: int| 0 <= k < before.len() implies (#[trigger] before[k]).hash@
                    != h@ by {
                    if occurs(vector@, before[k].hash@) {
                        let q = choose|q: int|
                            0 <= q < vector@.len() && (#[trigger] vector@[q])@ == before[k].hash@;
                        assert(vector@[q]@ != h@);
                    } else {
                        let q = choose|q: int|
                            0 <= q < j && (#[trigger] lexical@[q])@ == before[k].hash@;
                        assert(lexical@[q]@ != lexical@[j as int]@);
                    }
                }
            }
            cands.push(FusedCandidate { hash: h, vector_rank: None, lexical_rank: Some(j + 1) });
            proof {
                let n = cands@.len() - 1;
                assert(cands@[n].hash@ == h@);
                assert(has_candidate(cands@, lexical@[j as int]@));
                assert forall|k: int| 0 <= k < vector@.len() implies has_candidate(
                    cands@,
                    (#[trigger] vector@[k])@,
                ) by {
                    assert(has_candidate(before, vector@[k]@));
                    let w = choose|w: int| 0 <= w < before.len() && (#[trigger] before[w]).hash@ == vector@[k]@;
                    assert(cands@[w] == before[w]);
                }
                assert forall|k: int| 0 <= k < j implies has_candidate(cands@, (#[trigger] lexical@[k])@) by {
                    assert(has_candidate(before, lexical@[k]@));
                    let w = choose|w: int| 0 <= w < before.len() && (#[trigger] before[w]).hash@ == lexical@[k]@;
                    assert(cands@[w] == before[w]);
                }
                assert forall|k: int| 0 <= k < cands@.len() implies occurs(vector@, (#[trigger] cands@[k]).hash@) || exists|q: int|
                    0 <= q < j + 1 && (#[trigger] lexical@[q])@ == cands@[k].hash@ by {
                    if k == n {
                        assert(lexical@[j as int]@ == cands@[k].hash@);
                    } else {
                        assert(cands@[k] == before[k]);
                    }
                }
            }
        } else {
            proof {
                assert(has_candidate(cands@, lexical@[j as int]@));
            }
        }
        j = j + 1;
    }
    cands
}

/// Fuse the vector ranking and the lexical ranking (each best first and
/// without repeats) by reciprocal-rank fusion: each candidate scores
/// `Σ 1 / (60 + rank)` over the lists it appears in. The result holds the
/// `limit` best candidates, by score descending and then by content hash
/// ascending.
pub fn reciprocal_rank_fusion(
    vector: &Vec<ContentHash>,
    lexical: &Vec<ContentHash>,
    limit: usize,
) -> (out: Vec<FusedCandidate>)
    requires
        distinct_hashes(vector@),
        distinct_hashes(lexical@),
        vector@.len() <= 0xffff_ffff,
        lexical@.len() <= 0xffff_ffff,
    ensures
        out@.len() <= limit,
        forall|k: int| 0 <= k < out@.len() ==> candidate_of(vector@, lexical@, #[trigger] out@[k]),
        forall|i: int, j: int| 0 <= i < j < out@.len() ==> ranks_before(#[trigger] out@[i], #[trigger] out@[j]),
        forall|c: FusedCandidate, k: int|
            candidate_of(vector@, lexical@, c) && !has_candidate(out@, c.hash@) && 0 <= k
                < out@.len() ==> #[trigger] ranks_before(out@[k], c),
        out@.len() < limit ==> forall|h: Seq<u8>|
            (occurs(vector@, h) || occurs(lexical@, h)) ==> #[trigger] has_candidate(out@, h),
{
    let cands = collect_candidates(vector, lexical);
    let n = cands.len();
    let mut taken: Vec<bool> = Vec::new();
    let mut t: usize = 0;
    while t < n
        invariant
            0 <= t <= n,
            taken@.len() == t,
            forall|k: int| 0 <= k < t ==> !(#[trigger] taken@[k]),
        decreases n - t,
    {
        taken.push(false);
        t = t + 1;
    }
    let mut out: Vec<FusedCandidate> = Vec::new();
    let ghost mut order: Seq<int> = Seq::empty();
    while out.len() < limit
        invariant
            n == cands@.len(),
            taken@.len() == n,
            out@.len() <= limit,
            forall|k: int|
                0 <= k < n ==> candidate_of(vector@, lexical@, #[trigger] cands@[k]) && ranks_bounded(
                    cands@[k],
                ),
            distinct_candidates(cands@),
            order.len() == out@.len(),
            forall|k: int|
                0 <= k < out@.len() ==> 0 <= #[trigger] order[k] < n && taken@[order[k]]
                    && out@[k] == cands@[order[k]],
            forall|i: int| 0 <= i < n && #[trigger] taken@[i] ==> exists|k: int|
                0 <= k < order.len() && order[k] == i,
            forall|i: int, k: int|
                0 <= i < n && !taken@[i] && 0 <= k < out@.len() ==> !ranks_before(
                    #[trigger] cands@[i],
                    #[trigger] out@[k],
                ),
            forall|i: int, j: int| 0 <= i < j < out@.len() ==> !ranks_before(#[trigger] out@[j], #[trigger] out@[i]),
            forall|i: int, j: int| 0 <= i < j < order.len() ==> #[trigger] order[i] != #[trigger] order[j],
        ensures
            out@.len() >= limit || forall|i: int| 0 <= i < n ==> #[trigger] taken@[i],
        decreases limit - out@.len(),
    {
        let mut best: Option<usize> = None;
        let mut i: usize = 0;
        while i < n
            invariant
                n == cands@.len(),
                taken@.len() == n,
                0 <= i <= n,
                forall|k: int|
                    0 <= k < n ==> ranks_bounded(#[trigger] cands@[k]),
                best matches Some(b) ==> b < i && !taken@[b as int],
                best matches Some(b) ==> forall|j: int|
                    0 <= j < i && !taken@[j] ==> !ranks_before(#[trigger] cands@[j], cands@[b as int]),
                best is None ==> forall|j: int| 0 <= j < i ==> #[trigger] taken@[j],
            decreases n - i,
        {
            if !taken[i] {
                match best {
                    None => {
                        proof {
                            lemma_ranks_before_irreflexive(cands@[i as int]);
                        }
                        best = Some(i);
                    },
                    Some(b) => {
                        if ranks_before_exec(&cands[i], &cands[b]) {
                            proof {
                                assert forall|j: int| 0 <= j <= i && !taken@[j] implies !ranks_before(
                                    #[trigger] cands@[j],
                                    cands@[i as int],
                                ) by {
                                    if ranks_before(cands@[j], cands@[i as int]) {
                                        lemma_ranks_before_transitive(cands@[j], cands@[i as int], cands@[b as int]);
                                    }
                                }
                            }
                            best = Some(i);
                        }
                    },
                }
            }
            i = i + 1;
        }
        match best {
            None => {
                break;
            },
            Some(b) => {
                let ghost old_out = out@;
                let ghost old_taken = taken@;
                let ghost old_order = order;
                out.push(cands[b]);
                taken.set(b, true);
                proof {
                    order = order.push(b as int);
                    assert forall|x: int, y: int| 0 <= x < y < order.len() implies #[trigger] order[x] != #[trigger] order[y] by {
                        if y == order.len() - 1 {
                            assert(order[x] == old_order[x]);
                            assert(old_taken[old_order[x]]);
                        } else {
                            assert(order[x] == old_order[x]);
                            assert(order[y] == old_order[y]);
                        }
                    }
                    assert forall|k: int| 0 <= k < out@.len() implies 0 <= #[trigger] order[k] < n && taken@[order[k]]
                        && out@[k] == cands@[order[k]] by {
                        if k < old_out.len() {
                            assert(order[k] == old_order[k]);
                            assert(old_taken[old_order[k]]);
                            assert(out@[k] == old_out[k]);
                        }
                    }
                    assert forall|x: int| 0 <= x < n && #[trigger] taken@[x] implies exists|k: int|
                        0 <= k < order.len() && order[k] == x by {
                        if x == b {
                            assert(order[order.len() - 1] == x);
                        } else {
                            assert(old_taken[x]);
                            let k = choose|k: int| 0 <= k < old_order.len() && old_order[k] == x;
                            assert(order[k] == x);
                        }
                    }
                    assert forall|x: int, k: int|
                        0 <= x < n && !taken@[x] && 0 <= k < out@.len() implies !ranks_before(
                            #[trigger] cands@[x],
                            #[trigger] out@[k],
                        ) by {
                        assert(!old_taken[x]);
                        if k < old_out.len() {
                            assert(out@[k] == old_out[k]);
                        }
                    }
                    assert forall|x: int, y: int| 0 <= x < y < out@.len() implies !ranks_before(
                        #[trigger] out@[y],
                        #[trigger] out@[x],
                    ) by {
                        if y == out@.len() - 1 {
                            assert(out@[y] == cands@[b as int]);
                            assert(out@[x] == old_out[x]);
                        } else {
                            assert(out@[y] == old_out[y]);
                            assert(out@[x] == old_out[x]);
                        }
                    }
                }
            },
        }
    }
    proof {
        assert forall|k: int| 0 <= k < out@.len() implies candidate_of(vector@, lexical@, #[trigger] out@[k]) by {
            assert(out@[k] == cands@[order[k]]);
        }
        assert forall|i: int, j: int| 0 <= i < j < out@.len() implies ranks_before(
            #[trigger] out@[i],
            #[trigger] out@[j],
        ) by {
            let oi = order[i];
            let oj = order[j];
            assert(oi != oj);
            if oi < oj {
                assert(cands@[oi].hash@ != cands@[oj].hash@);
            } else {
                assert(cands@[oj].hash@ != cands@[oi].hash@);
            }
            lemma_ranks_before_total(out@[i], out@[j]);
        }
        assert forall|c: FusedCandidate, k: int|
            candidate_of(vector@, lexical@, c) && !has_candidate(out@, c.hash@) && 0 <= k
                < out@.len() implies #[trigger] ranks_before(out@[k], c) by {
            let h = c.hash@;
            match c.vector_rank {
                Some(x) => {
                    assert(vector@[x - 1]@ == h);
                    assert(has_candidate(cands@, vector@[x - 1]@));
                },
                None => {
                    let y = c.lexical_rank->0;
                    assert(lexical@[y - 1]@ == h);
                    assert(has_candidate(cands@, lexical@[y - 1]@));
                },
            }
            let w = choose|w: int| 0 <= w < cands@.len() && (#[trigger] cands@[w]).hash@ == h;
            lemma_candidate_unique(vector@, lexical@, c, cands@[w]);
            if taken@[w] {
                let q = choose|q: int| 0 <= q < order.len() && order[q] == w;
                assert(out@[q] == cands@[w]);
                assert(has_candidate(out@, h));
            }
            assert(!ranks_before(cands@[w], out@[k]));
            assert(out@[k].hash@ != h);
            lemma_ranks_before_total(out@[k], cands@[w]);
        }
        if out@.len() < limit {
            assert forall|h: Seq<u8>|
                (occurs(vector@, h) || occurs(lexical@, h)) implies #[trigger] has_candidate(
                out@,
                h,
            ) by {
                if occurs(vector@, h) {
                    let x = choose|x: int| 0 <= x < vector@.len() && (#[trigger] vector@[x])@ == h;
                    assert(has_candidate(cands@, vector@[x]@));
                } else {
                    let x = choose|x: int| 0 <= x < lexical@.len() && (#[trigger] lexical@[x])@ == h;
                    assert(has_candidate(cands@, lexical@[x]@));
                }
                let w = choose|w: int| 0 <= w < cands@.len() && (#[trigger] cands@[w]).hash@ == h;
                assert(taken@[w]);
                let q = choose|q: int| 0 <= q < order.len() && order[q] == w;
                assert(out@[q].hash@ == h);
            }
        }
    }
    out
}

/// When the vector and lexical lists are the same, every candidate holds
/// the same rank in both, so both lists add the same `1 / (60 + rank)`.
pub proof fn lemma_identical_lists_contribute_equally(list: Seq<ContentHash>, c: FusedCandidate)
    requires
        distinct_hashes(list),
        candidate_of(list, list, c),
    ensures
        c.vector_rank is Some,
        c.vector_rank == c.lexical_rank,
{
    let d = FusedCandidate { hash: c.hash, vector_rank: c.lexical_rank, lexical_rank: c.vector_rank };
    lemma_candidate_unique(list, list, c, d);
}

/// The fused score strictly decreases with the rank: in one list alone, and
/// for candidates at the same rank of two identical lists.
pub proof fn lemma_rrf_strictly_decreasing_in_rank(h: ContentHash, a: usize, b: usize)
    requires
        1 <= a < b,
    ensures
        scores_above(
            FusedCandidate { hash: h, vector_rank: Some(a), lexical_rank: None },
            FusedCandidate { hash: h, vector_rank: Some(b), lexical_rank: None },
        ),
        scores_above(
            FusedCandidate { hash: h, vector_rank: None, lexical_rank: Some(a) },
            FusedCandidate { hash: h, vector_rank: None, lexical_rank: Some(b) },
        ),
        scores_above(
            FusedCandidate { hash: h, vector_rank: Some(a), lexical_rank: Some(a) },
            FusedCandidate { hash: h, vector_rank: Some(b), lexical_rank: Some(b) },
        ),
{
    let x = 60 + a as int;
    let y = 60 + b as int;
    assert((x + x) * (y * y) > (y + y) * (x * x)) by (nonlinear_arith)
        requires
            0 < x < y,
    ;
}

/// Rank `x` is no worse than rank `y`: both absent, or both present and `x` no higher.
pub open spec fn no_worse(x: Option<usize>, y: Option<usize>) -> bool {
    match (x, y) {
        (Some(p), Some(q)) => p <= q,
        (None, None) => true,
        _ => false,
    }
}

/// Rank `x` is strictly better than rank `y`.
pub open spec fn strictly_better(x: Option<usize>, y: Option<usize>) -> bool {
    match (x, y) {
        (Some(p), Some(q)) => p < q,
        _ => false,
    }
}

/// A candidate that appears in the same lists as another, no lower in any
/// and higher in one, has a strictly greater fused score.
pub proof fn lemma_rrf_dominance(a: FusedCandidate, b: FusedCandidate)
    requires
        no_worse(a.vector_rank, b.vector_rank),
        no_worse(a.lexical_rank, b.lexical_rank),
        strictly_better(a.vector_rank, b.vector_rank) || strictly_better(a.lexical_rank, b.lexical_rank),
    ensures
        scores_above(a, b),
{
    match (a.vector_rank, a.lexical_rank, b.vector_rank, b.lexical_rank) {
        (Some(va), Some(la), Some(vb), Some(lb)) => {
            let (x1, x2, y1, y2) = (60 + va as int, 60 + la as int, 60 + vb as int, 60 + lb as int);
            assert((x1 + x2) * (y1 * y2) == x1 * (y1 * y2) + x2 * (y1 * y2)) by (nonlinear_arith);
            assert((y1 + y2) * (x1 * x2) == y1 * (x1 * x2) + y2 * (x1 * x2)) by (nonlinear_arith);
            assert(x1 * (y1 * y2) - y1 * (x1 * x2) == (x1 * y1) * (y2 - x2)) by (nonlinear_arith);
            assert(x2 * (y1 * y2) - y2 * (x1 * x2) == (x2 * y2) * (y1 - x1)) by (nonlinear_arith);
            assert(x1 * y1 > 0 && x2 * y2 > 0) by (nonlinear_arith)
                requires
                    0 < x1,
                    0 < y1,
                    0 < x2,
                    0 < y2,
            ;
            let (u, v) = (x1 * y1, x2 * y2);
            assert(u * (y2 - x2) >= 0 && v * (y1 - x1) >= 0) by (nonlinear_arith)
                requires
                    u > 0,
                    v > 0,
                    x1 <= y1,
                    x2 <= y2,
            ;
            assert(u * (y2 - x2) > 0 || v * (y1 - x1) > 0) by (nonlinear_arith)
                requires
                    u > 0,
                    v > 0,
                    x1 < y1 || x2 < y2,
            ;
        },
        _ => {},
    }
}

} // verus!
