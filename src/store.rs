//! The index store: chunks, embeddings and locations keyed and replaced by
//! key, and edges that always leave a stored chunk.
use crate::chunk::{Chunk, ChunkLocation, Edge};
use crate::query::opt_text;
use crate::text::text_eq;
use crate::content_hash::ContentHash;
use crate::vector::Embedding;
use vstd::prelude::*;

verus! {

/// The map from key to the last element of `s` with that key.
pub open spec fn seq_map<K, T>(s: Seq<T>, key: spec_fn(T) -> K) -> Map<K, T>
    decreases s.len(),
{
    if s.len() == 0 {
        Map::empty()
    } else {
        seq_map(s.drop_last(), key).insert(key(s.last()), s.last())
    }
}

/// No two elements of `s` share a key.
pub open spec fn keys_unique<K, T>(s: Seq<T>, key: spec_fn(T) -> K) -> bool {
    forall|i: int, j: int| 0 <= i < j < s.len() ==> key(#[trigger] s[i]) != key(#[trigger] s[j])
}

/// Replacing an element by one of the same key replaces the key's value.
pub(crate) proof fn lemma_seq_map_update<K, T>(s: Seq<T>, key: spec_fn(T) -> K, i: int, x: T)
    requires
        0 <= i < s.len(),
        keys_unique(s, key),
        key(s[i]) == key(x),
    ensures
        seq_map(s.update(i, x), key) == seq_map(s, key).insert(key(x), x),
    decreases s.len(),
{
    let t = s.update(i, x);
    let n = s.len() - 1;
    if i == n {
        assert(t.drop_last() =~= s.drop_last());
        assert(seq_map(s, key).insert(key(x), x) =~= seq_map(s.drop_last(), key).insert(key(x), x));
    } else {
        let d = s.drop_last();
        assert forall|a: int, b: int| 0 <= a < b < d.len() implies key(#[trigger] d[a]) != key(
            #[trigger] d[b],
        ) by {
            assert(s[a] == d[a] && s[b] == d[b]);
        }
        lemma_seq_map_update(d, key, i, x);
        assert(t.drop_last() =~= d.update(i, x));
        assert(key(s[n]) != key(s[i]));
        assert(seq_map(t, key) =~= seq_map(s, key).insert(key(x), x));
    }
}

/// Every element's key is a key of the map, and the map's keys are the elements' keys.
proof fn lemma_seq_map_domain<K, T>(s: Seq<T>, key: spec_fn(T) -> K, k: K)
    ensures
        seq_map(s, key).contains_key(k) <==> exists|i: int| 0 <= i < s.len() && key(#[trigger] s[i]) == k,
    decreases s.len(),
{
    if s.len() > 0 {
        lemma_seq_map_domain(s.drop_last(), key, k);
        if exists|i: int| 0 <= i < s.len() - 1 && key(#[trigger] s.drop_last()[i]) == k {
            let i = choose|i: int| 0 <= i < s.len() - 1 && key(#[trigger] s.drop_last()[i]) == k;
            assert(key(s[i]) == k);
        }
        if exists|i: int| 0 <= i < s.len() && key(#[trigger] s[i]) == k {
            let i = choose|i: int| 0 <= i < s.len() && key(#[trigger] s[i]) == k;
            if i < s.len() - 1 {
                assert(key(s.drop_last()[i]) == k);
            }
        }
    }
}

/// `m` with the elements of `b` put in, in order, each by its key.
pub open spec fn put_all<K, T>(m: Map<K, T>, b: Seq<T>, key: spec_fn(T) -> K) -> Map<K, T>
    decreases b.len(),
{
    if b.len() == 0 {
        m
    } else {
        put_all(m, b.drop_last(), key).insert(key(b.last()), b.last())
    }
}

/// Some element of `b` has key `k`.
pub open spec fn has_key<K, T>(b: Seq<T>, key: spec_fn(T) -> K, k: K) -> bool {
    exists|j: int| 0 <= j < b.len() && key(#[trigger] b[j]) == k
}

/// The last element of `b` with key `k`.
pub open spec fn last_with<K, T>(b: Seq<T>, key: spec_fn(T) -> K, k: K) -> T
    decreases b.len(),
{
    if b.len() == 0 {
        arbitrary()
    } else if key(b.last()) == k {
        b.last()
    } else {
        last_with(b.drop_last(), key, k)
    }
}

proof fn lemma_put_all<K, T>(m: Map<K, T>, b: Seq<T>, key: spec_fn(T) -> K, k: K)
    ensures
        put_all(m, b, key).contains_key(k) == (m.contains_key(k) || has_key(b, key, k)),
        has_key(b, key, k) ==> put_all(m, b, key)[k] == last_with(b, key, k),
        !has_key(b, key, k) && m.contains_key(k) ==> put_all(m, b, key)[k] == m[k],
    decreases b.len(),
{
    if b.len() > 0 {
        let d = b.drop_last();
        lemma_put_all(m, d, key, k);
        if has_key(d, key, k) {
            let j = choose|j: int| 0 <= j < d.len() && key(#[trigger] d[j]) == k;
            assert(key(b[j]) == k);
        }
        if has_key(b, key, k) && key(b.last()) != k {
            let j = choose|j: int| 0 <= j < b.len() && key(#[trigger] b[j]) == k;
            assert(j < b.len() - 1);
            assert(key(d[j]) == k);
        }
        if key(b.last()) == k {
            assert(key(b[b.len() - 1]) == k);
        }
    }
}

/// Putting the same batch in twice leaves what putting it in once leaves.
pub proof fn lemma_put_all_idempotent<K, T>(m: Map<K, T>, b: Seq<T>, key: spec_fn(T) -> K)
    ensures
        put_all(put_all(m, b, key), b, key) == put_all(m, b, key),
{
    let once = put_all(m, b, key);
    let twice = put_all(once, b, key);
    assert forall|k: K| #[trigger] twice.contains_key(k) == once.contains_key(k) by {
        lemma_put_all(m, b, key, k);
        lemma_put_all(once, b, key, k);
    }
    assert forall|k: K| twice.contains_key(k) implies #[trigger] twice[k] == once[k] by {
        lemma_put_all(m, b, key, k);
        lemma_put_all(once, b, key, k);
    }
    assert(twice =~= once);
}

/// The key of a chunk: its content hash.
pub open spec fn chunk_key(c: Chunk) -> Seq<u8> {
    c.content_hash@
}

/// The key of a stored embedding: the hash of its chunk.
pub open spec fn embedding_key(e: (ContentHash, Embedding)) -> Seq<u8> {
    e.0@
}

/// The key of a location: chunk hash, file path and commit.
pub open spec fn location_key(l: ChunkLocation) -> (Seq<u8>, Seq<char>, Option<Seq<char>>) {
    (l.content_hash@, l.file_path@, opt_text(l.commit_hash))
}

/// The chunk key as a function.
pub open spec fn chunk_keyf() -> spec_fn(Chunk) -> Seq<u8> {
    |c: Chunk| chunk_key(c)
}

/// The embedding key as a function.
pub open spec fn embedding_keyf() -> spec_fn((ContentHash, Embedding)) -> Seq<u8> {
    |e: (ContentHash, Embedding)| embedding_key(e)
}

/// The location key as a function.
pub open spec fn location_keyf() -> spec_fn(ChunkLocation) -> (Seq<u8>, Seq<char>, Option<Seq<char>>) {
    |l: ChunkLocation| location_key(l)
}

/// A copy of an optional string.
pub fn copy_opt(o: &Option<String>) -> (r: Option<String>)
    ensures
        r == *o,
{
    match o {
        Some(x) => Some(x.clone()),
        None => None,
    }
}

/// A copy of a chunk.
pub fn copy_chunk(c: &Chunk) -> (r: Chunk)
    ensures
        r == *c,
{
    Chunk {
        content_hash: c.content_hash,
        content: c.content.clone(),
        language: c.language,
        kind: c.kind,
        symbol_name: copy_opt(&c.symbol_name),
        signature: copy_opt(&c.signature),
        docstring: copy_opt(&c.docstring),
        byte_size: c.byte_size,
        line_start: c.line_start,
        line_end: c.line_end,
        line_count: c.line_count,
        module_id: copy_opt(&c.module_id),
    }
}

/// A copy of an embedding.
pub fn copy_embedding(e: &Embedding) -> (r: Embedding)
    ensures
        r.vector@ == e.vector@,
        r.model_id == e.model_id,
        r.dimensions == e.dimensions,
{
    let mut v: Vec<u32> = Vec::new();
    let mut i: usize = 0;
    while i < e.vector.len()
        invariant
            0 <= i <= e.vector@.len(),
            v@ == e.vector@.subrange(0, i as int),
        decreases e.vector@.len() - i,
    {
        v.push(e.vector[i]);
        assert(v@ =~= e.vector@.subrange(0, i as int + 1));
        i = i + 1;
    }
    assert(v@ =~= e.vector@);
    Embedding { vector: v, model_id: e.model_id.clone(), dimensions: e.dimensions }
}

/// The persistent index: chunks, embeddings and locations, each keyed and
/// replaced by key, and edges, which accumulate.
pub struct IndexStore {
    pub chunks: Vec<Chunk>,
    pub embeddings: Vec<(ContentHash, Embedding)>,
    pub locations: Vec<ChunkLocation>,
    pub edges: Vec<Edge>,
}

impl IndexStore {
    /// Keys are unique in each table; every chunk's hash is the digest of its
    /// content; every embedding has as many components as dimensions; every
    /// edge leaves a stored chunk.
    pub open spec fn wf(&self) -> bool {
        &&& keys_unique(self.chunks@, chunk_keyf())
        &&& keys_unique(self.embeddings@, embedding_keyf())
        &&& keys_unique(self.locations@, location_keyf())
        &&& forall|i: int| 0 <= i < self.chunks@.len() ==> (#[trigger] self.chunks@[i]).wf()
        &&& forall|i: int| 0 <= i < self.embeddings@.len() ==> (#[trigger] self.embeddings@[i]).1.wf()
        &&& forall|i: int|
            0 <= i < self.edges@.len() ==> self.chunk_map().contains_key(
                (#[trigger] self.edges@[i]).source_hash@,
            )
    }

    /// The chunks by hash.
    pub open spec fn chunk_map(&self) -> Map<Seq<u8>, Chunk> {
        seq_map(self.chunks@, chunk_keyf())
    }

    /// The embeddings by chunk hash.
    pub open spec fn embedding_map(&self) -> Map<Seq<u8>, (ContentHash, Embedding)> {
        seq_map(self.embeddings@, embedding_keyf())
    }

    /// The locations by (hash, file, commit).
    pub open spec fn location_map(&self) -> Map<(Seq<u8>, Seq<char>, Option<Seq<char>>), ChunkLocation> {
        seq_map(self.locations@, location_keyf())
    }

    /// An empty store.
    pub fn new() -> (r: IndexStore)
        ensures
            r.wf(),
            r.chunks@.len() == 0,
            r.embeddings@.len() == 0,
            r.locations@.len() == 0,
            r.edges@.len() == 0,
    {
        IndexStore { chunks: Vec::new(), embeddings: Vec::new(), locations: Vec::new(), edges: Vec::new() }
    }

    /// Store a chunk, replacing the chunk of the same hash.
    pub fn put_chunk(&mut self, c: Chunk)
        requires
            old(self).wf(),
            c.wf(),
        ensures
            final(self).wf(),
            final(self).chunk_map() == old(self).chunk_map().insert(chunk_key(c), c),
            final(self).embeddings == old(self).embeddings,
            final(self).locations == old(self).locations,
            final(self).edges == old(self).edges,
    {
        let ghost key = chunk_keyf();
        let ghost before = self.chunks@;
        let mut i: usize = 0;
        while i < self.chunks.len()
            invariant
                old(self).wf(),
                c.wf(),
                key == chunk_keyf(),
                self.chunks@ == before,
                self.embeddings == old(self).embeddings,
                self.locations == old(self).locations,
                self.edges == old(self).edges,
                before == old(self).chunks@,
                0 <= i <= before.len(),
                forall|j: int| 0 <= j < i ==> chunk_key(#[trigger] before[j]) != chunk_key(c),
            decreases before.len() - i,
        {
            if self.chunks[i].content_hash == c.content_hash {
                proof {
                    assert(key(before[i as int]) == key(c));
                    lemma_seq_map_update(before, key, i as int, c);
                }
                self.chunks.set(i, c);
                proof {
                    self.lemma_keys_after_chunk_update(before, i as int, c);
                }
                return;
            }
            i = i + 1;
        }
        self.chunks.push(c);
        proof {
            assert(self.chunks@.drop_last() =~= before);
            self.lemma_keys_after_chunk_push(before, c);
        }
    }

    proof fn lemma_keys_after_chunk_update(&self, before: Seq<Chunk>, i: int, c: Chunk)
        requires
            0 <= i < before.len(),
            keys_unique(before, chunk_keyf()),
            chunk_key(before[i]) == chunk_key(c),
            c.wf(),
            self.chunks@ == before.update(i, c),
            forall|j: int| 0 <= j < before.len() ==> (#[trigger] before[j]).wf(),
            forall|j: int|
                0 <= j < self.edges@.len() ==> seq_map(before, chunk_keyf()).contains_key(
                    (#[trigger] self.edges@[j]).source_hash@,
                ),
            keys_unique(self.embeddings@, embedding_keyf()),
            keys_unique(self.locations@, location_keyf()),
            forall|j: int| 0 <= j < self.embeddings@.len() ==> (#[trigger] self.embeddings@[j]).1.wf(),
            self.chunk_map() == seq_map(before, chunk_keyf()).insert(chunk_key(c), c),
        ensures
            self.wf(),
    {
        assert forall|a: int, b: int| 0 <= a < b < self.chunks@.len() implies chunk_key(
            #[trigger] self.chunks@[a],
        ) != chunk_key(#[trigger] self.chunks@[b]) by {
            assert(chunk_key(before[a]) != chunk_key(before[b]));
        }
        assert forall|j: int| 0 <= j < self.chunks@.len() implies (#[trigger] self.chunks@[j]).wf() by {
            if j != i {
                assert(self.chunks@[j] == before[j]);
            }
        }
        assert forall|j: int| 0 <= j < self.edges@.len() implies self.chunk_map().contains_key(
            (#[trigger] self.edges@[j]).source_hash@,
        ) by {
            assert(seq_map(before, chunk_keyf()).contains_key(self.edges@[j].source_hash@));
        }
    }

    proof fn lemma_keys_after_chunk_push(&self, before: Seq<Chunk>, c: Chunk)
        requires
            keys_unique(before, chunk_keyf()),
            forall|j: int| 0 <= j < before.len() ==> chunk_key(#[trigger] before[j]) != chunk_key(c),
            c.wf(),
            self.chunks@ == before.push(c),
            forall|j: int| 0 <= j < before.len() ==> (#[trigger] before[j]).wf(),
            forall|j: int|
                0 <= j < self.edges@.len() ==> seq_map(before, chunk_keyf()).contains_key(
                    (#[trigger] self.edges@[j]).source_hash@,
                ),
            keys_unique(self.embeddings@, embedding_keyf()),
            keys_unique(self.locations@, location_keyf()),
            forall|j: int| 0 <= j < self.embeddings@.len() ==> (#[trigger] self.embeddings@[j]).1.wf(),
        ensures
            self.wf(),
            self.chunk_map() == seq_map(before, chunk_keyf()).insert(chunk_key(c), c),
    {
        assert(self.chunks@.drop_last() =~= before);
        assert forall|a: int, b: int| 0 <= a < b < self.chunks@.len() implies chunk_key(
            #[trigger] self.chunks@[a],
        ) != chunk_key(#[trigger] self.chunks@[b]) by {
            if b < before.len() {
                assert(chunk_key(before[a]) != chunk_key(before[b]));
            } else {
                assert(self.chunks@[a] == before[a]);
            }
        }
        assert forall|j: int| 0 <= j < self.chunks@.len() implies (#[trigger] self.chunks@[j]).wf() by {
            if j < before.len() {
                assert(self.chunks@[j] == before[j]);
            }
        }
        assert forall|j: int| 0 <= j < self.edges@.len() implies self.chunk_map().contains_key(
            (#[trigger] self.edges@[j]).source_hash@,
        ) by {
            assert(seq_map(before, chunk_keyf()).contains_key(self.edges@[j].source_hash@));
        }
    }

    /// Store the embedding of chunk `h`, replacing the one stored for it.
    pub fn put_embedding(&mut self, h: ContentHash, e: Embedding)
        requires
            old(self).wf(),
            e.wf(),
        ensures
            final(self).wf(),
            final(self).embedding_map() == old(self).embedding_map().insert(h@, (h, e)),
            final(self).chunks == old(self).chunks,
            final(self).locations == old(self).locations,
            final(self).edges == old(self).edges,
    {
        let ghost key = embedding_keyf();
        let ghost before = self.embeddings@;
        let ghost x = (h, e);
        let mut i: usize = 0;
        while i < self.embeddings.len()
            invariant
                old(self).wf(),
                e.wf(),
                x == (h, e),
                key == embedding_keyf(),
                self.embeddings@ == before,
                self.chunks == old(self).chunks,
                self.locations == old(self).locations,
                self.edges == old(self).edges,
                before == old(self).embeddings@,
                0 <= i <= before.len(),
                forall|j: int| 0 <= j < i ==> embedding_key(#[trigger] before[j]) != h@,
            decreases before.len() - i,
        {
            if self.embeddings[i].0 == h {
                proof {
                    assert(key(before[i as int]) == key(x));
                    lemma_seq_map_update(before, key, i as int, x);
                }
                self.embeddings.set(i, (h, e));
                proof {
                    assert forall|a: int, b: int| 0 <= a < b < self.embeddings@.len() implies embedding_key(
                        #[trigger] self.embeddings@[a],
                    ) != embedding_key(#[trigger] self.embeddings@[b]) by {
                        assert(embedding_key(before[a]) != embedding_key(before[b]));
                    }
                    assert forall|j: int| 0 <= j < self.embeddings@.len() implies (#[trigger] self.embeddings@[j]).1.wf() by {
                        if j != i {
                            assert(self.embeddings@[j] == before[j]);
                        }
                    }
                }
                return;
            }
            i = i + 1;
        }
        self.embeddings.push((h, e));
        proof {
            assert(self.embeddings@.drop_last() =~= before);
            assert forall|a: int, b: int| 0 <= a < b < self.embeddings@.len() implies embedding_key(
                #[trigger] self.embeddings@[a],
            ) != embedding_key(#[trigger] self.embeddings@[b]) by {
                if b < before.len() {
                    assert(embedding_key(before[a]) != embedding_key(before[b]));
                } else {
                    assert(self.embeddings@[a] == before[a]);
                }
            }
            assert forall|j: int| 0 <= j < self.embeddings@.len() implies (#[trigger] self.embeddings@[j]).1.wf() by {
                if j < before.len() {
                    assert(self.embeddings@[j] == before[j]);
                }
            }
        }
    }

    /// Store a location, replacing the one of the same (hash, file, commit).
    pub fn put_location(&mut self, l: ChunkLocation)
        requires
            old(self).wf(),
        ensures
            final(self).wf(),
            final(self).location_map() == old(self).location_map().insert(location_key(l), l),
            final(self).chunks == old(self).chunks,
            final(self).embeddings == old(self).embeddings,
            final(self).edges == old(self).edges,
    {
        let ghost key = location_keyf();
        let ghost before = self.locations@;
        let mut i: usize = 0;
        while i < self.locations.len()
            invariant
                old(self).wf(),
                key == location_keyf(),
                self.locations@ == before,
                self.chunks == old(self).chunks,
                self.embeddings == old(self).embeddings,
                self.edges == old(self).edges,
                before == old(self).locations@,
                0 <= i <= before.len(),
                forall|j: int| 0 <= j < i ==> location_key(#[trigger] before[j]) != location_key(l),
            decreases before.len() - i,
        {
            let cur = &self.locations[i];
            if cur.content_hash == l.content_hash && crate::text::text_eq(
                cur.file_path.as_str(),
                l.file_path.as_str(),
            ) && opt_eq(&cur.commit_hash, &l.commit_hash) {
                proof {
                    assert(key(before[i as int]) == key(l));
                    lemma_seq_map_update(before, key, i as int, l);
                }
                self.locations.set(i, l);
                proof {
                    assert forall|a: int, b: int| 0 <= a < b < self.locations@.len() implies location_key(
                        #[trigger] self.locations@[a],
                    ) != location_key(#[trigger] self.locations@[b]) by {
                        assert(location_key(before[a]) != location_key(before[b]));
                    }
                }
                return;
            }
            i = i + 1;
        }
        self.locations.push(l);
        proof {
            assert(self.locations@.drop_last() =~= before);
            assert forall|a: int, b: int| 0 <= a < b < self.locations@.len() implies location_key(
                #[trigger] self.locations@[a],
            ) != location_key(#[trigger] self.locations@[b]) by {
                if b < before.len() {
                    assert(location_key(before[a]) != location_key(before[b]));
                } else {
                    assert(self.locations@[a] == before[a]);
                }
            }
        }
    }

    /// Store a batch of edges as one group: where some edge leaves no stored
    /// chunk, nothing is stored and `false` comes back; otherwise each edge is
    /// stored unless an edge of the same source, target, kind and line already
    /// is, and `true` comes back.
    pub fn add_edges(&mut self, edges: &Vec<Edge>) -> (stored: bool)
        requires
            old(self).wf(),
        ensures
            final(self).wf(),
            final(self).chunks == old(self).chunks,
            final(self).embeddings == old(self).embeddings,
            final(self).locations == old(self).locations,
            stored == sources_stored(edges@, old(self).chunk_map()),
            stored ==> final(self).edges@ == merged(old(self).edges@, edges@),
            !stored ==> final(self).edges@ == old(self).edges@,
    {
        let mut i: usize = 0;
        while i < edges.len()
            invariant
                self.wf(),
                self.chunks == old(self).chunks,
                self.embeddings == old(self).embeddings,
                self.locations == old(self).locations,
                self.edges == old(self).edges,
                0 <= i <= edges@.len(),
                forall|j: int| 0 <= j < i ==> self.chunk_map().contains_key((#[trigger] edges@[j]).source_hash@),
            decreases edges@.len() - i,
        {
            if !self.has_chunk(&edges[i].source_hash) {
                return false;
            }
            i = i + 1;
        }
        let mut k: usize = 0;
        while k < edges.len()
            invariant
                self.wf(),
                self.chunks == old(self).chunks,
                self.embeddings == old(self).embeddings,
                self.locations == old(self).locations,
                0 <= k <= edges@.len(),
                sources_stored(edges@, old(self).chunk_map()),
                self.edges@ == merged(old(self).edges@, edges@.subrange(0, k as int)),
            decreases edges@.len() - k,
        {
            assert(edges@.subrange(0, k as int + 1).drop_last() =~= edges@.subrange(0, k as int));
            assert(edges@.subrange(0, k as int + 1).last() == edges@[k as int]);
            let e = &edges[k];
            if !self.has_edge_key(e) {
                let ghost before = self.edges@;
                self.edges.push(e.clone_edge());
                proof {
                    assert forall|q: int| 0 <= q < self.edges@.len() implies self.chunk_map().contains_key(
                        (#[trigger] self.edges@[q]).source_hash@,
                    ) by {
                        if q < before.len() {
                            assert(self.edges@[q] == before[q]);
                        }
                    }
                }
            }
            k = k + 1;
        }
        assert(edges@.subrange(0, edges@.len() as int) =~= edges@);
        true
    }

    /// Whether an edge of the same source, target, kind and line as `e` is stored.
    pub fn has_edge_key(&self, e: &Edge) -> (r: bool)
        ensures
            r == has_key(self.edges@, edge_keyf(), edge_key(*e)),
    {
        let mut i: usize = 0;
        while i < self.edges.len()
            invariant
                0 <= i <= self.edges@.len(),
                forall|j: int| 0 <= j < i ==> edge_key(#[trigger] self.edges@[j]) != edge_key(*e),
            decreases self.edges@.len() - i,
        {
            let x = &self.edges[i];
            let same_line = match (x.line_number, e.line_number) {
                (Some(a), Some(b)) => a == b,
                (None, None) => true,
                _ => false,
            };
            if x.source_hash == e.source_hash && text_eq(x.target_query.as_str(), e.target_query.as_str())
                && x.kind == e.kind && same_line {
                assert(edge_keyf()(self.edges@[i as int]) == edge_key(*e));
                return true;
            }
            i = i + 1;
        }
        proof {
            if has_key(self.edges@, edge_keyf(), edge_key(*e)) {
                let j = choose|j: int| 0 <= j < self.edges@.len() && edge_keyf()(#[trigger] self.edges@[j]) == edge_key(*e);
                assert(edge_key(self.edges@[j]) != edge_key(*e));
            }
        }
        false
    }

    /// Whether a chunk of hash `h` is stored.
    pub fn has_chunk(&self, h: &ContentHash) -> (r: bool)
        ensures
            r == self.chunk_map().contains_key(h@),
    {
        proof {
            lemma_seq_map_domain(self.chunks@, chunk_keyf(), h@);
        }
        let mut i: usize = 0;
        while i < self.chunks.len()
            invariant
                0 <= i <= self.chunks@.len(),
                forall|j: int| 0 <= j < i ==> (#[trigger] self.chunks@[j]).content_hash@ != h@,
            decreases self.chunks@.len() - i,
        {
            if self.chunks[i].content_hash == *h {
                proof {
                    lemma_seq_map_domain(self.chunks@, chunk_keyf(), h@);
                    assert(chunk_keyf()(self.chunks@[i as int]) == h@);
                }
                return true;
            }
            i = i + 1;
        }
        proof {
            if exists|j: int| 0 <= j < self.chunks@.len() && chunk_keyf()(#[trigger] self.chunks@[j]) == h@ {
                let j = choose|j: int| 0 <= j < self.chunks@.len() && chunk_keyf()(#[trigger] self.chunks@[j]) == h@;
                assert(self.chunks@[j].content_hash@ != h@);
            }
        }
        false
    }
}

/// The key of an edge: source, target, kind and line.
pub open spec fn edge_key(e: Edge) -> (Seq<u8>, Seq<char>, crate::chunk::EdgeKind, Option<usize>) {
    (e.source_hash@, e.target_query@, e.kind, e.line_number)
}

/// The edge key as a function.
pub open spec fn edge_keyf() -> spec_fn(Edge) -> (Seq<u8>, Seq<char>, crate::chunk::EdgeKind, Option<usize>) {
    |e: Edge| edge_key(e)
}

/// Every edge of `edges` leaves a chunk of `chunks`.
pub open spec fn sources_stored(edges: Seq<Edge>, chunks: Map<Seq<u8>, Chunk>) -> bool {
    forall|j: int| 0 <= j < edges.len() ==> chunks.contains_key((#[trigger] edges[j]).source_hash@)
}

/// `stored` with the edges of `batch` added in order, each unless an edge of
/// its key is already there.
pub open spec fn merged(stored: Seq<Edge>, batch: Seq<Edge>) -> Seq<Edge>
    decreases batch.len(),
{
    if batch.len() == 0 {
        stored
    } else {
        let m = merged(stored, batch.drop_last());
        if has_key(m, edge_keyf(), edge_key(batch.last())) {
            m
        } else {
            m.push(batch.last())
        }
    }
}

proof fn lemma_merged_has_keys(stored: Seq<Edge>, batch: Seq<Edge>)
    ensures
        forall|j: int| 0 <= j < batch.len() ==> has_key(merged(stored, batch), edge_keyf(), edge_key(#[trigger] batch[j])),
        forall|k| #[trigger] has_key(stored, edge_keyf(), k) ==> has_key(merged(stored, batch), edge_keyf(), k),
    decreases batch.len(),
{
    if batch.len() > 0 {
        let d = batch.drop_last();
        lemma_merged_has_keys(stored, d);
        let m = merged(stored, d);
        let r = merged(stored, batch);
        assert forall|k| has_key(m, edge_keyf(), k) implies #[trigger] has_key(r, edge_keyf(), k) by {
            let w = choose|w: int| 0 <= w < m.len() && edge_keyf()(#[trigger] m[w]) == k;
            assert(r[w] == m[w]);
        }
        assert forall|j: int| 0 <= j < batch.len() implies has_key(r, edge_keyf(), edge_key(#[trigger] batch[j])) by {
            if j < batch.len() - 1 {
                assert(batch[j] == d[j]);
                assert(has_key(m, edge_keyf(), edge_key(d[j])));
            } else if !has_key(m, edge_keyf(), edge_key(batch.last())) {
                assert(edge_keyf()(r[r.len() - 1]) == edge_key(batch[j]));
            }
        }
    }
}

proof fn lemma_merged_present(stored: Seq<Edge>, batch: Seq<Edge>)
    requires
        forall|j: int| 0 <= j < batch.len() ==> has_key(stored, edge_keyf(), edge_key(#[trigger] batch[j])),
    ensures
        merged(stored, batch) == stored,
    decreases batch.len(),
{
    if batch.len() > 0 {
        let d = batch.drop_last();
        assert forall|j: int| 0 <= j < d.len() implies has_key(stored, edge_keyf(), edge_key(#[trigger] d[j])) by {
            assert(d[j] == batch[j]);
        }
        lemma_merged_present(stored, d);
        assert(has_key(stored, edge_keyf(), edge_key(batch[batch.len() - 1])));
    }
}

/// Adding the same batch of edges twice leaves what adding it once leaves.
pub proof fn lemma_merged_idempotent(stored: Seq<Edge>, batch: Seq<Edge>)
    ensures
        merged(merged(stored, batch), batch) == merged(stored, batch),
{
    lemma_merged_has_keys(stored, batch);
    lemma_merged_present(merged(stored, batch), batch);
}

/// The edges of `edges` that leave a chunk of `chunks`, in order.
pub open spec fn kept_edges(chunks: Map<Seq<u8>, Chunk>, edges: Seq<Edge>) -> Seq<Edge>
    decreases edges.len(),
{
    if edges.len() == 0 {
        Seq::empty()
    } else if chunks.contains_key(edges.last().source_hash@) {
        kept_edges(chunks, edges.drop_last()).push(edges.last())
    } else {
        kept_edges(chunks, edges.drop_last())
    }
}

/// Whether two optional strings are equal.
pub fn opt_eq(a: &Option<String>, b: &Option<String>) -> (r: bool)
    ensures
        r == (opt_text(*a) == opt_text(*b)),
{
    match (a, b) {
        (Some(x), Some(y)) => crate::text::text_eq(x.as_str(), y.as_str()),
        (None, None) => true,
        _ => false,
    }
}

impl Edge {
    /// A copy of the edge.
    pub fn clone_edge(&self) -> (r: Edge)
        ensures
            r == *self,
    {
        Edge {
            source_hash: self.source_hash,
            target_query: self.target_query.clone(),
            kind: self.kind,
            line_number: self.line_number,
        }
    }
}

/// What the indexing pipeline hands the store for one file: its path and
/// commit, its module, its chunks, the embedding of each chunk where the
/// embedder gave one, the author and timestamp of each chunk where the
/// history attributes it, the byte offset of each chunk in the file, and its
/// edges.
pub struct FileBatch {
    pub file_path: String,
    pub commit_hash: Option<String>,
    pub module_id: Option<String>,
    pub chunks: Vec<Chunk>,
    pub embeddings: Vec<Option<Embedding>>,
    pub attributions: Vec<Option<(String, String)>>,
    pub byte_starts: Vec<usize>,
    pub edges: Vec<Edge>,
}

/// Chunk `c` stamped with module `module_id`.
pub open spec fn stamped(c: Chunk, module_id: Option<String>) -> Chunk {
    Chunk { module_id, ..c }
}

/// The location of chunk `c` at byte offset `start` of file `path` at
/// `commit`, with its author and timestamp where it is attributed.
pub open spec fn location_of(
    c: Chunk,
    path: String,
    commit: Option<String>,
    attribution: Option<(String, String)>,
    start: usize,
) -> ChunkLocation {
    ChunkLocation {
        content_hash: c.content_hash,
        file_path: path,
        byte_start: start,
        byte_end: (start + c.byte_size) as usize,
        line_start: c.line_start,
        line_end: c.line_end,
        commit_hash: commit,
        author: match attribution {
            Some((a, _)) => Some(a),
            None => None,
        },
        timestamp: match attribution {
            Some((_, t)) => Some(t),
            None => None,
        },
    }
}

/// The chunks that the store receives for the file, in order.
pub open spec fn batch_chunks(f: FileBatch) -> Seq<Chunk> {
    Seq::new(f.chunks@.len(), |i: int| stamped(f.chunks@[i], f.module_id))
}

/// The locations that the store receives for the file, in order.
pub open spec fn batch_locations(f: FileBatch) -> Seq<ChunkLocation> {
    Seq::new(
        f.chunks@.len(),
        |i: int|
            location_of(
                stamped(f.chunks@[i], f.module_id),
                f.file_path,
                f.commit_hash,
                f.attributions@[i],
                f.byte_starts@[i],
            ),
    )
}

/// The embeddings that the store receives for the first `k` chunks, in order.
pub open spec fn batch_embeddings(f: FileBatch, k: int) -> Seq<(ContentHash, Embedding)>
    decreases k,
{
    if k <= 0 {
        Seq::empty()
    } else {
        let r = batch_embeddings(f, k - 1);
        match f.embeddings@[k - 1] {
            Some(e) => r.push((f.chunks@[k - 1].content_hash, e)),
            None => r,
        }
    }
}

/// Store `t` is store `s` after indexing the file `f`, by key.
pub open spec fn indexed(s: IndexStore, f: FileBatch, t: IndexStore) -> bool {
    &&& t.chunk_map() == put_all(s.chunk_map(), batch_chunks(f), chunk_keyf())
    &&& t.embedding_map() == put_all(
        s.embedding_map(),
        batch_embeddings(f, f.chunks@.len() as int),
        embedding_keyf(),
    )
    &&& t.location_map() == put_all(s.location_map(), batch_locations(f), location_keyf())
    &&& t.edges@ == if sources_stored(f.edges@, t.chunk_map()) {
        merged(s.edges@, f.edges@)
    } else {
        s.edges@
    }
}

/// Indexing the same file twice leaves the chunks, embeddings and locations,
/// by key, and the edges as indexing it once.
pub proof fn lemma_index_file_idempotent(s0: IndexStore, s1: IndexStore, s2: IndexStore, f: FileBatch)
    requires
        indexed(s0, f, s1),
        indexed(s1, f, s2),
    ensures
        s2.chunk_map() == s1.chunk_map(),
        s2.embedding_map() == s1.embedding_map(),
        s2.location_map() == s1.location_map(),
        s2.edges@ == s1.edges@,
{
    lemma_merged_idempotent(s0.edges@, f.edges@);
    lemma_put_all_idempotent(s0.chunk_map(), batch_chunks(f), chunk_keyf());
    lemma_put_all_idempotent(
        s0.embedding_map(),
        batch_embeddings(f, f.chunks@.len() as int),
        embedding_keyf(),
    );
    lemma_put_all_idempotent(s0.location_map(), batch_locations(f), location_keyf());
}

pub(crate) proof fn lemma_put_all_push<K, T>(m: Map<K, T>, b: Seq<T>, x: T, key: spec_fn(T) -> K)
    ensures
        put_all(m, b.push(x), key) == put_all(m, b, key).insert(key(x), x),
{
    assert(b.push(x).drop_last() =~= b);
}

impl IndexStore {
    /// Index one file: store each chunk stamped with the file's module, its
    /// embedding where there is one, and its location; then store the file's
    /// edges that leave a stored chunk.
    pub fn index_file(&mut self, f: FileBatch)
        requires
            old(self).wf(),
            f.embeddings@.len() == f.chunks@.len(),
            f.attributions@.len() == f.chunks@.len(),
            f.byte_starts@.len() == f.chunks@.len(),
            forall|i: int| 0 <= i < f.chunks@.len() ==> (#[trigger] f.chunks@[i]).wf(),
            forall|i: int| 0 <= i < f.chunks@.len() ==> f.byte_starts@[i] + (#[trigger] f.chunks@[i]).byte_size <= usize::MAX,
            forall|i: int|
                0 <= i < f.embeddings@.len() ==> (#[trigger] f.embeddings@[i] matches Some(e) ==> e.wf()),
        ensures
            final(self).wf(),
            indexed(*old(self), f, *final(self)),
    {
        let ghost fv = f;
        let FileBatch { file_path, commit_hash, module_id, mut chunks, mut embeddings, mut attributions, mut byte_starts, edges } = f;
        let ghost cs0 = chunks@;
        let ghost es0 = embeddings@;
        let ghost as0 = attributions@;
        let ghost bs0 = byte_starts@;
        let n = chunks.len();
        let mut i: usize = 0;
        while i < n
            invariant
                self.wf(),
                n == cs0.len(),
                es0.len() == cs0.len(),
                as0.len() == cs0.len(),
                fv.chunks@ == cs0,
                fv.embeddings@ == es0,
                fv.attributions@ == as0,
                fv.byte_starts@ == bs0,
                bs0.len() == cs0.len(),
                forall|j: int| 0 <= j < cs0.len() ==> bs0[j] + (#[trigger] cs0[j]).byte_size <= usize::MAX,
                fv.module_id == module_id,
                fv.file_path == file_path,
                fv.commit_hash == commit_hash,
                forall|j: int| 0 <= j < cs0.len() ==> (#[trigger] cs0[j]).wf(),
                forall|j: int| 0 <= j < es0.len() ==> (#[trigger] es0[j] matches Some(e) ==> e.wf()),
                0 <= i <= n,
                chunks@ == cs0.subrange(i as int, n as int),
                embeddings@ == es0.subrange(i as int, n as int),
                attributions@ == as0.subrange(i as int, n as int),
                byte_starts@ == bs0.subrange(i as int, n as int),
                self.chunk_map() == put_all(old(self).chunk_map(), batch_chunks(fv).subrange(0, i as int), chunk_keyf()),
                self.embedding_map() == put_all(old(self).embedding_map(), batch_embeddings(fv, i as int), embedding_keyf()),
                self.location_map() == put_all(old(self).location_map(), batch_locations(fv).subrange(0, i as int), location_keyf()),
                self.edges@ == old(self).edges@,
                fv.edges == edges,
            decreases n - i,
        {
            let c = chunks.remove(0);
            let eo = embeddings.remove(0);
            let at = attributions.remove(0);
            let bstart = byte_starts.remove(0);
            assert(bstart == bs0[i as int]);
            assert(byte_starts@ =~= bs0.subrange(i as int + 1, n as int));
            assert(c == cs0[i as int]);
            assert(eo == es0[i as int]);
            assert(at == as0[i as int]);
            assert(chunks@ =~= cs0.subrange(i as int + 1, n as int));
            assert(embeddings@ =~= es0.subrange(i as int + 1, n as int));
            assert(attributions@ =~= as0.subrange(i as int + 1, n as int));
            let mut sc = c;
            sc.module_id = copy_opt(&module_id);
            let h = sc.content_hash;
            let loc = ChunkLocation {
                content_hash: sc.content_hash,
                file_path: file_path.clone(),
                byte_start: bstart,
                byte_end: bstart + sc.byte_size,
                line_start: sc.line_start,
                line_end: sc.line_end,
                commit_hash: copy_opt(&commit_hash),
                author: None,
                timestamp: None,
            };
            let loc = match at {
                Some((a, t)) => ChunkLocation { author: Some(a), timestamp: Some(t), ..loc },
                None => loc,
            };
            proof {
                assert(sc == stamped(cs0[i as int], module_id));
                assert(loc == location_of(sc, file_path, commit_hash, as0[i as int], bs0[i as int]));
                assert(batch_chunks(fv).subrange(0, i as int + 1) =~= batch_chunks(fv).subrange(0, i as int).push(sc));
                assert(batch_locations(fv).subrange(0, i as int + 1) =~= batch_locations(fv).subrange(0, i as int).push(loc));
                lemma_put_all_push(old(self).chunk_map(), batch_chunks(fv).subrange(0, i as int), sc, chunk_keyf());
                lemma_put_all_push(old(self).location_map(), batch_locations(fv).subrange(0, i as int), loc, location_keyf());
            }
            self.put_chunk(sc);
            match eo {
                Some(e) => {
                    proof {
                        assert(batch_embeddings(fv, i as int + 1) == batch_embeddings(fv, i as int).push((h, e)));
                        lemma_put_all_push(old(self).embedding_map(), batch_embeddings(fv, i as int), (h, e), embedding_keyf());
                    }
                    self.put_embedding(h, e);
                },
                None => {
                    assert(batch_embeddings(fv, i as int + 1) == batch_embeddings(fv, i as int));
                },
            }
            self.put_location(loc);
            i = i + 1;
        }
        assert(batch_chunks(fv).subrange(0, n as int) =~= batch_chunks(fv));
        assert(batch_locations(fv).subrange(0, n as int) =~= batch_locations(fv));
        self.add_edges(&edges);
    }
}

proof fn lemma_seq_map_index<K, T>(s: Seq<T>, key: spec_fn(T) -> K, i: int)
    requires
        0 <= i < s.len(),
        keys_unique(s, key),
    ensures
        seq_map(s, key).contains_key(key(s[i])),
        seq_map(s, key)[key(s[i])] == s[i],
    decreases s.len(),
{
    if i < s.len() - 1 {
        let d = s.drop_last();
        assert forall|a: int, b: int| 0 <= a < b < d.len() implies key(#[trigger] d[a]) != key(
            #[trigger] d[b],
        ) by {
            assert(s[a] == d[a] && s[b] == d[b]);
        }
        lemma_seq_map_index(d, key, i);
        assert(d[i] == s[i]);
        assert(key(s[s.len() - 1]) != key(s[i]));
    }
}

/// The edges of `edges` that leave chunk `h`, in order.
pub open spec fn edges_from(edges: Seq<Edge>, h: Seq<u8>) -> Seq<Edge>
    decreases edges.len(),
{
    if edges.len() == 0 {
        Seq::empty()
    } else if edges.last().source_hash@ == h {
        edges_from(edges.drop_last(), h).push(edges.last())
    } else {
        edges_from(edges.drop_last(), h)
    }
}

/// The edges of `edges` whose target is `t`, in order.
pub open spec fn edges_to(edges: Seq<Edge>, t: Seq<char>) -> Seq<Edge>
    decreases edges.len(),
{
    if edges.len() == 0 {
        Seq::empty()
    } else if edges.last().target_query@ == t {
        edges_to(edges.drop_last(), t).push(edges.last())
    } else {
        edges_to(edges.drop_last(), t)
    }
}

impl IndexStore {
    /// The chunk of hash `h`, if stored.
    pub fn get_chunk(&self, h: &ContentHash) -> (r: Option<Chunk>)
        requires
            self.wf(),
        ensures
            r is Some <==> self.chunk_map().contains_key(h@),
            r matches Some(c) ==> c == self.chunk_map()[h@],
    {
        let mut i: usize = 0;
        while i < self.chunks.len()
            invariant
                self.wf(),
                0 <= i <= self.chunks@.len(),
                forall|j: int| 0 <= j < i ==> (#[trigger] self.chunks@[j]).content_hash@ != h@,
            decreases self.chunks@.len() - i,
        {
            if self.chunks[i].content_hash == *h {
                proof {
                    lemma_seq_map_index(self.chunks@, chunk_keyf(), i as int);
                    assert(chunk_keyf()(self.chunks@[i as int]) == h@);
                }
                return Some(copy_chunk(&self.chunks[i]));
            }
            i = i + 1;
        }
        proof {
            lemma_seq_map_domain(self.chunks@, chunk_keyf(), h@);
            if exists|j: int| 0 <= j < self.chunks@.len() && chunk_keyf()(#[trigger] self.chunks@[j]) == h@ {
                let j = choose|j: int| 0 <= j < self.chunks@.len() && chunk_keyf()(#[trigger] self.chunks@[j]) == h@;
                assert(self.chunks@[j].content_hash@ != h@);
            }
        }
        None
    }

    /// The embedding stored for chunk `h`, if any.
    pub fn get_embedding(&self, h: &ContentHash) -> (r: Option<Embedding>)
        requires
            self.wf(),
        ensures
            r is Some <==> self.embedding_map().contains_key(h@),
            r matches Some(e) ==> e.vector@ == self.embedding_map()[h@].1.vector@ && e.model_id
                == self.embedding_map()[h@].1.model_id && e.dimensions
                == self.embedding_map()[h@].1.dimensions,
    {
        let mut i: usize = 0;
        while i < self.embeddings.len()
            invariant
                self.wf(),
                0 <= i <= self.embeddings@.len(),
                forall|j: int| 0 <= j < i ==> (#[trigger] self.embeddings@[j]).0@ != h@,
            decreases self.embeddings@.len() - i,
        {
            if self.embeddings[i].0 == *h {
                proof {
                    lemma_seq_map_index(self.embeddings@, embedding_keyf(), i as int);
                    assert(embedding_keyf()(self.embeddings@[i as int]) == h@);
                }
                return Some(copy_embedding(&self.embeddings[i].1));
            }
            i = i + 1;
        }
        proof {
            lemma_seq_map_domain(self.embeddings@, embedding_keyf(), h@);
            if exists|j: int| 0 <= j < self.embeddings@.len() && embedding_keyf()(#[trigger] self.embeddings@[j]) == h@ {
                let j = choose|j: int| 0 <= j < self.embeddings@.len() && embedding_keyf()(#[trigger] self.embeddings@[j]) == h@;
                assert(self.embeddings@[j].0@ != h@);
            }
        }
        None
    }

    /// The number of stored chunks, one per hash.
    pub fn count(&self) -> (r: usize)
        ensures
            r == self.chunks@.len(),
    {
        self.chunks.len()
    }

    /// The stored edges that leave chunk `h`, in order of storage.
    pub fn outgoing_edges(&self, h: &ContentHash) -> (r: Vec<Edge>)
        ensures
            r@ == edges_from(self.edges@, h@),
    {
        let mut out: Vec<Edge> = Vec::new();
        let mut i: usize = 0;
        while i < self.edges.len()
            invariant
                0 <= i <= self.edges@.len(),
                out@ == edges_from(self.edges@.subrange(0, i as int), h@),
            decreases self.edges@.len() - i,
        {
            assert(self.edges@.subrange(0, i as int + 1).drop_last() =~= self.edges@.subrange(0, i as int));
            if self.edges[i].source_hash == *h {
                out.push(self.edges[i].clone_edge());
            }
            i = i + 1;
        }
        assert(self.edges@.subrange(0, self.edges@.len() as int) =~= self.edges@);
        out
    }

    /// The stored edges whose target is `t`, in order of storage.
    pub fn incoming_edges(&self, t: &str) -> (r: Vec<Edge>)
        ensures
            r@ == edges_to(self.edges@, t@),
    {
        let mut out: Vec<Edge> = Vec::new();
        let mut i: usize = 0;
        while i < self.edges.len()
            invariant
                0 <= i <= self.edges@.len(),
                out@ == edges_to(self.edges@.subrange(0, i as int), t@),
            decreases self.edges@.len() - i,
        {
            assert(self.edges@.subrange(0, i as int + 1).drop_last() =~= self.edges@.subrange(0, i as int));
            if text_eq(self.edges[i].target_query.as_str(), t) {
                out.push(self.edges[i].clone_edge());
            }
            i = i + 1;
        }
        assert(self.edges@.subrange(0, self.edges@.len() as int) =~= self.edges@);
        out
    }
}

/// The chunks of `chunks` whose symbol name is `s`, in order.
pub open spec fn chunks_named(chunks: Seq<Chunk>, s: Seq<char>) -> Seq<Chunk>
    decreases chunks.len(),
{
    if chunks.len() == 0 {
        Seq::empty()
    } else if opt_text(chunks.last().symbol_name) == Some(s) {
        chunks_named(chunks.drop_last(), s).push(chunks.last())
    } else {
        chunks_named(chunks.drop_last(), s)
    }
}

/// The targets of `edges`, in order.
pub open spec fn targets_of(edges: Seq<Edge>) -> Seq<Seq<char>> {
    Seq::new(edges.len(), |i: int| edges[i].target_query@)
}

/// The symbol names of the chunks of `hashes`, in order, leaving out `source`,
/// hashes without a stored chunk and chunks without a name, at most `limit`.
pub open spec fn relatives_prefix(
    chunks: Map<Seq<u8>, Chunk>,
    hashes: Seq<ContentHash>,
    source: Seq<u8>,
    limit: int,
    k: int,
) -> Seq<Seq<char>>
    decreases k,
{
    if k <= 0 {
        Seq::empty()
    } else {
        let rest = relatives_prefix(chunks, hashes, source, limit, k - 1);
        let h = hashes[k - 1]@;
        if rest.len() < limit && h != source && chunks.contains_key(h) && chunks[h].symbol_name is Some {
            rest.push(chunks[h].symbol_name->0@)
        } else {
            rest
        }
    }
}

impl IndexStore {
    /// The stored chunks whose symbol name is `symbol`, in order of storage.
    pub fn find_by_symbol(&self, symbol: &str) -> (r: Vec<Chunk>)
        ensures
            r@ == chunks_named(self.chunks@, symbol@),
    {
        let mut out: Vec<Chunk> = Vec::new();
        let mut i: usize = 0;
        while i < self.chunks.len()
            invariant
                0 <= i <= self.chunks@.len(),
                out@ == chunks_named(self.chunks@.subrange(0, i as int), symbol@),
            decreases self.chunks@.len() - i,
        {
            assert(self.chunks@.subrange(0, i as int + 1).drop_last() =~= self.chunks@.subrange(0, i as int));
            if crate::rollup::option_text_eq(&self.chunks[i].symbol_name, symbol) {
                out.push(copy_chunk(&self.chunks[i]));
            }
            i = i + 1;
        }
        assert(self.chunks@.subrange(0, self.chunks@.len() as int) =~= self.chunks@);
        out
    }

    /// The neighbours of a symbol: the targets of the edges that leave the
    /// first stored chunk of that name, in order of storage, and the names of
    /// the chunks of `nearest` (a ranking by embedding similarity, best first)
    /// other than that chunk, at most `limit`.
    pub fn related(&self, symbol: &str, nearest: &Vec<ContentHash>, limit: usize) -> (r: crate::service::RelatedResponse)
        requires
            self.wf(),
        ensures
            chunks_named(self.chunks@, symbol@).len() == 0 ==> r.graph_neighbors@.len() == 0
                && r.semantic_relatives@.len() == 0,
            chunks_named(self.chunks@, symbol@).len() > 0 ==> ({
                let src = chunks_named(self.chunks@, symbol@)[0].content_hash@;
                &&& Seq::new(r.graph_neighbors@.len(), |i: int| r.graph_neighbors@[i]@) == targets_of(edges_from(self.edges@, src))
                &&& Seq::new(r.semantic_relatives@.len(), |i: int| r.semantic_relatives@[i]@)
                    == relatives_prefix(self.chunk_map(), nearest@, src, limit as int, nearest@.len() as int)
            }),
    {
        let named = self.find_by_symbol(symbol);
        let mut graph_neighbors: Vec<String> = Vec::new();
        let mut semantic_relatives: Vec<String> = Vec::new();
        if named.len() == 0 {
            return crate::service::RelatedResponse { graph_neighbors, semantic_relatives };
        }
        let src = named[0].content_hash;
        let out = self.outgoing_edges(&src);
        let mut i: usize = 0;
        while i < out.len()
            invariant
                0 <= i <= out@.len(),
                graph_neighbors@.len() == i,
                forall|j: int| 0 <= j < i ==> (#[trigger] graph_neighbors@[j])@ == out@[j].target_query@,
            decreases out@.len() - i,
        {
            graph_neighbors.push(out[i].target_query.clone());
            i = i + 1;
        }
        let mut k: usize = 0;
        while k < nearest.len()
            invariant
                self.wf(),
                0 <= k <= nearest@.len(),
                Seq::new(semantic_relatives@.len(), |i: int| semantic_relatives@[i]@)
                    == relatives_prefix(self.chunk_map(), nearest@, src@, limit as int, k as int),
            decreases nearest@.len() - k,
        {
            let h = nearest[k];
            let ghost before = semantic_relatives@;
            if semantic_relatives.len() < limit && h != src {
                match self.get_chunk(&h) {
                    Some(c) => {
                        match c.symbol_name {
                            Some(name) => {
                                semantic_relatives.push(name);
                                assert(Seq::new(semantic_relatives@.len(), |i: int| semantic_relatives@[i]@) =~= Seq::new(
                                    before.len(),
                                    |i: int| before[i]@,
                                ).push(self.chunk_map()[h@].symbol_name->0@));
                            },
                            None => {},
                        }
                    },
                    None => {},
                }
            }
            k = k + 1;
        }
        assert(Seq::new(graph_neighbors@.len(), |i: int| graph_neighbors@[i]@) =~= targets_of(out@));
        crate::service::RelatedResponse { graph_neighbors, semantic_relatives }
    }
}

/// The locations of `locs` that satisfy `keep`, in order.
pub open spec fn locations_where(locs: Seq<ChunkLocation>, keep: spec_fn(ChunkLocation) -> bool) -> Seq<ChunkLocation>
    decreases locs.len(),
{
    if locs.len() == 0 {
        Seq::empty()
    } else if keep(locs.last()) {
        locations_where(locs.drop_last(), keep).push(locs.last())
    } else {
        locations_where(locs.drop_last(), keep)
    }
}

/// A copy of a location.
pub fn copy_location(l: &ChunkLocation) -> (r: ChunkLocation)
    ensures
        r == *l,
{
    ChunkLocation {
        content_hash: l.content_hash,
        file_path: l.file_path.clone(),
        byte_start: l.byte_start,
        byte_end: l.byte_end,
        line_start: l.line_start,
        line_end: l.line_end,
        commit_hash: copy_opt(&l.commit_hash),
        author: copy_opt(&l.author),
        timestamp: copy_opt(&l.timestamp),
    }
}

impl IndexStore {
    /// Every location of chunk `h`, across files and commits, in order of storage.
    pub fn locations_of(&self, h: &ContentHash) -> (r: Vec<ChunkLocation>)
        ensures
            r@ == locations_where(self.locations@, |l: ChunkLocation| l.content_hash@ == h@),
    {
        let ghost keep = |l: ChunkLocation| l.content_hash@ == h@;
        let mut out: Vec<ChunkLocation> = Vec::new();
        let mut i: usize = 0;
        while i < self.locations.len()
            invariant
                keep == (|l: ChunkLocation| l.content_hash@ == h@),
                0 <= i <= self.locations@.len(),
                out@ == locations_where(self.locations@.subrange(0, i as int), keep),
            decreases self.locations@.len() - i,
        {
            assert(self.locations@.subrange(0, i as int + 1).drop_last() =~= self.locations@.subrange(0, i as int));
            if self.locations[i].content_hash == *h {
                out.push(copy_location(&self.locations[i]));
            }
            i = i + 1;
        }
        assert(self.locations@.subrange(0, self.locations@.len() as int) =~= self.locations@);
        out
    }

    /// The locations recorded at commit `commit`, in order of storage.
    pub fn locations_at_commit(&self, commit: &str) -> (r: Vec<ChunkLocation>)
        ensures
            r@ == locations_where(self.locations@, |l: ChunkLocation| opt_text(l.commit_hash) == Some(commit@)),
    {
        let ghost keep = |l: ChunkLocation| opt_text(l.commit_hash) == Some(commit@);
        let mut out: Vec<ChunkLocation> = Vec::new();
        let mut i: usize = 0;
        while i < self.locations.len()
            invariant
                keep == (|l: ChunkLocation| opt_text(l.commit_hash) == Some(commit@)),
                0 <= i <= self.locations@.len(),
                out@ == locations_where(self.locations@.subrange(0, i as int), keep),
            decreases self.locations@.len() - i,
        {
            assert(self.locations@.subrange(0, i as int + 1).drop_last() =~= self.locations@.subrange(0, i as int));
            if crate::rollup::option_text_eq(&self.locations[i].commit_hash, commit) {
                out.push(copy_location(&self.locations[i]));
            }
            i = i + 1;
        }
        assert(self.locations@.subrange(0, self.locations@.len() as int) =~= self.locations@);
        out
    }

    /// The locations in file `path`, in order of storage.
    pub fn locations_in_file(&self, path: &str) -> (r: Vec<ChunkLocation>)
        ensures
            r@ == locations_where(self.locations@, |l: ChunkLocation| l.file_path@ == path@),
    {
        let ghost keep = |l: ChunkLocation| l.file_path@ == path@;
        let mut out: Vec<ChunkLocation> = Vec::new();
        let mut i: usize = 0;
        while i < self.locations.len()
            invariant
                keep == (|l: ChunkLocation| l.file_path@ == path@),
                0 <= i <= self.locations@.len(),
                out@ == locations_where(self.locations@.subrange(0, i as int), keep),
            decreases self.locations@.len() - i,
        {
            assert(self.locations@.subrange(0, i as int + 1).drop_last() =~= self.locations@.subrange(0, i as int));
            if text_eq(self.locations[i].file_path.as_str(), path) {
                out.push(copy_location(&self.locations[i]));
            }
            i = i + 1;
        }
        assert(self.locations@.subrange(0, self.locations@.len() as int) =~= self.locations@);
        out
    }
}

} // verus!
