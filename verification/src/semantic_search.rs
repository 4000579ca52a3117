//! The semantic search service.
//!
//! It owns the vector store and the nearest-neighbour index, and keeps them
//! in lockstep: a record's position in the store is its identifier in the
//! index. Adding a note appends and inserts under the next position; removal
//! filters the store and rebuilds the index from scratch, since positions
//! shift. The embedding provider is an external collaborator: callers hand
//! every text's embedding in as a fixed-point vector, and the service
//! normalizes it once, on both the add path and the query path.

use vstd::prelude::*;
use vstd::set_lib::set_int_range;
use vstd::set_lib::lemma_int_range;
use vstd::set_lib::lemma_len_subset;
use vstd::seq_lib::seq_to_set_is_finite;
use crate::ann::AnnIndex;
use crate::ann::ann_ids;
use crate::ann::ann_dim;
use crate::ann::ann_vecs;
use crate::ann::ann_new;
use crate::ann::ann_insert;
use crate::ann::ann_search;
use crate::codec::parse_spec;
use crate::codec::render_spec;
use crate::codec::load;
use crate::codec::save;
use crate::store::NoteRecord;
use crate::store::MAX_TEXT;
use crate::store::store_views;
use crate::store::has_text;
use crate::store::keeps;
use crate::store::remove_by_text;
use crate::store::view_wf;
use crate::store::views_wf;
use crate::vecmath::bounded;
use crate::vecmath::dist_sq;
use crate::vecmath::dist_sq_spec;
use crate::vecmath::normalize;
use crate::vecmath::normalize_spec;
use crate::vecmath::MAX_COMPONENT;
use crate::vecmath::MAX_DIM;
use crate::vecmath::SCALE;

verus! {

/// Maximum connections kept per graph layer.
pub const MAX_CONNECTIONS: usize = 16;

/// Maximum number of graph layers.
pub const MAX_LAYERS: usize = 16;

/// Search breadth during index construction and queries; higher is more
/// accurate and slower.
pub const EF_CONSTRUCTION: usize = 200;

/// The index is sized for at least this many elements.
pub const MIN_CAPACITY: usize = 200;

/// An error surfaced by the search service.
#[derive(Clone, Copy, Debug, PartialEq, Eq)]
pub enum SearchError {
    /// The embedding provider failed or handed back a malformed vector.
    Embedding,
    /// Persisted state could not be read back.
    Persistence,
    /// An index identifier did not correspond to a store position.
    Index,
}

/// The semantic note index: the store and the graph index over it.
pub struct SemanticSearch {
    /// Embedding dimensionality, fixed for the store's whole life.
    pub dim: usize,
    /// The vector store; a record's position is its index identifier.
    pub notes: Vec<NoteRecord>,
    /// The nearest-neighbour index over the stored embeddings.
    pub index: AnnIndex,
}

/// The identifiers a store of `n` records uses: exactly `0 .. n`.
pub open spec fn pos_ids(n: int) -> Set<int> {
    set_int_range(0, n)
}

/// A stored record fit for dimension `dim`: normalized components and a
/// text the persisted form can carry.
pub open spec fn rec_wf(r: NoteRecord, dim: int) -> bool {
    &&& r.embedding@.len() == dim
    &&& bounded(r.embedding@, SCALE as int)
    &&& r.text@.len() <= MAX_TEXT as int
}

/// The service invariant: a sane dimension, well-formed records, an index
/// whose identifiers are exactly the store's positions, and under each
/// position exactly that record's embedding — the position-as-identity
/// lockstep.
pub open spec fn wf(s: SemanticSearch) -> bool {
    &&& 1 <= s.dim && s.dim <= MAX_DIM
    &&& forall|i: int| 0 <= i < s.notes@.len() ==> rec_wf(#[trigger] s.notes@[i], s.dim as int)
    &&& ann_ids(s.index) == pos_ids(s.notes@.len() as int)
    &&& forall|i: int|
        0 <= i < s.notes@.len() ==> ann_vecs(s.index)[i] == (#[trigger] s.notes@[i]).embedding@
    &&& s.notes@.len() > 0 ==> ann_dim(s.index) == s.dim as nat
}

/// An embedding the provider may hand over for this store: right length,
/// components within the accepted raw range.
pub open spec fn embedding_ok(e: Seq<i32>, dim: int) -> bool {
    &&& e.len() == dim
    &&& bounded(e, MAX_COMPONENT as int)
}

/// One query answer is honest: some record carries exactly this text, at
/// exactly this squared distance from the normalized query.
pub open spec fn hit_ok(entry: (String, u64), notes: Seq<NoteRecord>, nq: Seq<i32>) -> bool {
    exists|id: int|
        0 <= id < notes.len() && (#[trigger] notes[id]).text@ == entry.0@ && entry.1 as int
            == dist_sq_spec(notes[id].embedding@, nq)
}

/// What a successful query promises: exactly `min(k, store size)` answers,
/// ordered by non-decreasing distance, each one honest about its text and
/// its exact squared distance to the normalized query.
pub open spec fn search_ok(
    res: Seq<(String, u64)>,
    notes: Seq<NoteRecord>,
    nq: Seq<i32>,
    k: int,
) -> bool {
    &&& res.len() == min_int(k, notes.len() as int)
    &&& forall|i: int, j: int|
        #![trigger res[i], res[j]]
        0 <= i < j < res.len() ==> res[i].1 <= res[j].1
    &&& forall|i: int| 0 <= i < res.len() ==> hit_ok(#[trigger] res[i], notes, nq)
}

/// Whether persisted content loads cleanly for dimension `dim`.
pub open spec fn load_ok(c: Seq<char>, dim: int) -> bool {
    &&& parse_spec(c) is Some
    &&& forall|i: int|
        0 <= i < parse_spec(c)->Some_0.len() ==> (#[trigger] parse_spec(c)->Some_0[i]).1.len()
            == dim
}

/// Checks that an embedding has the expected length and raw bounds.
fn check_embedding(v: &Vec<i32>, dim: usize) -> (b: bool)
    ensures
        b == embedding_ok(v@, dim as int),
{
    if v.len() != dim {
        return false;
    }
    let mut i: usize = 0;
    while i < v.len()
        invariant
            0 <= i <= v@.len(),
            forall|j: int|
                0 <= j < i as int ==> -(MAX_COMPONENT as int) <= #[trigger] v@[j] <= MAX_COMPONENT
                    as int,
        decreases v@.len() - i,
    {
        let x = v[i];
        if x < -MAX_COMPONENT || x > MAX_COMPONENT {
            proof {
                assert(!(-(MAX_COMPONENT as int) <= v@[i as int] <= MAX_COMPONENT as int));
                assert(!bounded(v@, MAX_COMPONENT as int));
            }
            return false;
        }
        i = i + 1;
    }
    true
}

/// Builds a fresh index sized for the store and inserts every record at its
/// current position.
fn rebuild_index(notes: &Vec<NoteRecord>, dim: usize) -> (r: AnnIndex)
    requires
        1 <= dim <= MAX_DIM,
        forall|i: int| 0 <= i < notes@.len() ==> rec_wf(#[trigger] notes@[i], dim as int),
    ensures
        ann_ids(r) == pos_ids(notes@.len() as int),
        forall|j: int|
            0 <= j < notes@.len() ==> ann_vecs(r)[j] == (#[trigger] notes@[j]).embedding@,
        notes@.len() > 0 ==> ann_dim(r) == dim as nat,
{
    let capacity = if notes.len() > MIN_CAPACITY {
        notes.len()
    } else {
        MIN_CAPACITY
    };
    let mut index = ann_new(MAX_CONNECTIONS, capacity, MAX_LAYERS, EF_CONSTRUCTION);
    let mut i: usize = 0;
    proof {
        lemma_int_range(0, 0);
        assert(ann_ids(index) =~= pos_ids(0));
    }
    while i < notes.len()
        invariant
            0 <= i <= notes@.len() <= usize::MAX as int,
            1 <= dim <= MAX_DIM,
            forall|j: int| 0 <= j < notes@.len() ==> rec_wf(#[trigger] notes@[j], dim as int),
            ann_ids(index) == pos_ids(i as int),
            forall|j: int|
                0 <= j < i as int ==> ann_vecs(index)[j] == (#[trigger] notes@[j]).embedding@,
            i > 0 ==> ann_dim(index) == dim as nat,
        decreases notes@.len() - i,
    {
        proof {
            lemma_int_range(0, i as int);
            if i == 0 {
                assert(pos_ids(0) =~= Set::<int>::empty());
            } else {
                assert(pos_ids(i as int).contains(0));
                assert(ann_ids(index) != Set::<int>::empty());
            }
            assert(rec_wf(notes@[i as int], dim as int));
        }
        ann_insert(&mut index, &notes[i].embedding, i);
        proof {
            assert(pos_ids(i as int).insert(i as int) =~= pos_ids(i as int + 1));
        }
        i = i + 1;
    }
    index
}

impl SemanticSearch {
    /// Builds the service from persisted state: an absent file is an empty
    /// store; malformed or dimension-mismatched content fails the whole
    /// load. The index is always rebuilt from what was loaded, so the
    /// persisted store is the source of truth.
    #[verifier::loop_isolation(false)]
    pub fn new(dim: usize, persisted: Option<&str>) -> (r: Result<SemanticSearch, SearchError>)
        requires
            1 <= dim <= MAX_DIM,
        ensures
            (match r {
                Ok(s) => wf(s) && s.dim == dim && (match persisted {
                    None => s.notes@.len() == 0,
                    Some(c) => load_ok(c@, dim as int) && parse_spec(c@) == Some(
                        store_views(s.notes@),
                    ),
                }),
                Err(e) => e == SearchError::Persistence && (match persisted {
                    None => false,
                    Some(c) => !load_ok(c@, dim as int),
                }),
            }),
    {
        let records: Vec<NoteRecord> = match persisted {
            None => Vec::new(),
            Some(c) => {
                match load(c) {
                    Ok(r) => {
                        proof {
                            crate::codec::lemma_parse_wf(c@);
                        }
                        r
                    },
                    Err(_) => {
                        return Err(SearchError::Persistence);
                    },
                }
            },
        };
        // every record must match the provider's dimensionality
        let mut i: usize = 0;
        while i < records.len()
            invariant
                0 <= i <= records@.len(),
                forall|j: int|
                    0 <= j < i as int ==> (#[trigger] records@[j]).embedding@.len() == dim as int,
        decreases records@.len() - i,
        {
            if records[i].embedding.len() != dim {
                proof {
                    if persisted is Some {
                        let c = persisted->Some_0;
                        assert(store_views(records@)[i as int] == crate::store::rec_view(
                            records@[i as int],
                        ));
                        assert((parse_spec(c@)->Some_0[i as int]).1.len() != dim as int);
                        assert(!load_ok(c@, dim as int));
                    }
                }
                return Err(SearchError::Persistence);
            }
            i = i + 1;
        }
        proof {
            if persisted is Some {
                let c = persisted->Some_0;
                assert(views_wf(store_views(records@)));
            }
            assert forall|j: int| 0 <= j < records@.len() implies rec_wf(
                #[trigger] records@[j],
                dim as int,
            ) by {
                assert(store_views(records@)[j] == crate::store::rec_view(records@[j]));
                assert(view_wf(store_views(records@)[j]));
            }
        }
        let index = rebuild_index(&records, dim);
        Ok(SemanticSearch { dim, notes: records, index })
    }

    /// How many notes the store holds.
    pub fn len(&self) -> (n: usize)
        ensures
            n == self.notes@.len(),
    {
        self.notes.len()
    }

    /// Serializes the store; the caller persists the result after every
    /// mutation, replacing the file atomically.
    pub fn save(&self) -> (s: String)
        requires
            wf(*self),
        ensures
            s@ == render_spec(store_views(self.notes@)),
    {
        proof {
            assert(forall|j: int|
                0 <= j < self.notes@.len() ==> #[trigger] store_views(self.notes@)[j]
                    == crate::store::rec_view(self.notes@[j]));
            assert(views_wf(store_views(self.notes@)));
        }
        save(&self.notes)
    }

    /// Adds a note: normalizes its embedding, inserts it into the index
    /// under the next position, and appends it to the store. A vector of
    /// the wrong length or with out-of-range components is the provider's
    /// malformed output and is rejected whole. The caller persists the
    /// store afterwards.
    pub fn add_note(&mut self, text: &str, embedding: &Vec<i32>) -> (r: Result<(), SearchError>)
        requires
            wf(*old(self)),
            text@.len() <= MAX_TEXT as int,
        ensures
            wf(*final(self)),
            final(self).dim == old(self).dim,
            (match r {
                Ok(u) => embedding_ok(embedding@, old(self).dim as int)
                    && final(self).notes@.len() == old(self).notes@.len() + 1
                    && store_views(final(self).notes@)
                    == store_views(old(self).notes@).push((text@, normalize_spec(embedding@))),
                Err(e) => e == SearchError::Embedding && !embedding_ok(
                    embedding@,
                    old(self).dim as int,
                ) && *final(self) == *old(self),
            }),
    {
        if !check_embedding(embedding, self.dim) {
            return Err(SearchError::Embedding);
        }
        let nv = normalize(embedding);
        let id = self.notes.len();
        proof {
            lemma_int_range(0, id as int);
            if id == 0 {
                assert(pos_ids(0) =~= Set::<int>::empty());
            } else {
                assert(pos_ids(id as int).contains(0));
                assert(ann_ids(self.index) != Set::<int>::empty());
            }
        }
        ann_insert(&mut self.index, &nv, id);
        let rec = NoteRecord { text: text.to_owned(), embedding: nv };
        crate::store::append(&mut self.notes, rec);
        proof {
            assert(pos_ids(id as int).insert(id as int) =~= pos_ids(id as int + 1));
            assert(forall|j: int|
                0 <= j < self.notes@.len() ==> #[trigger] store_views(self.notes@)[j]
                    == crate::store::rec_view(self.notes@[j]));
            assert(store_views(self.notes@) =~= store_views(old(self).notes@).push(
                (text@, normalize_spec(embedding@)),
            ));
        }
        Ok(())
    }

    /// Removes every note whose text equals `text` exactly, then rebuilds
    /// the index, since the surviving records' positions shift. Removing an
    /// absent text succeeds and touches nothing, so no needless rebuild
    /// happens. The caller persists the store afterwards.
    pub fn remove_note(&mut self, text: &str) -> (r: Result<(), SearchError>)
        requires
            wf(*old(self)),
        ensures
            wf(*final(self)),
            final(self).dim == old(self).dim,
            r is Ok,
            final(self).notes@ == old(self).notes@.filter(keeps(text@)),
            final(self).notes@.len() + old(self).notes@.filter(
                crate::store::drops(text@),
            ).len() == old(self).notes@.len(),
            !has_text(old(self).notes@, text@) ==> final(self).notes@ == old(self).notes@
                && final(self).index == old(self).index,
    {
        proof {
            crate::store::lemma_remove_partition(old(self).notes@, text@);
        }
        let removed = remove_by_text(&mut self.notes, text);
        if removed {
            proof {
                assert forall|j: int| 0 <= j < self.notes@.len() implies rec_wf(
                    #[trigger] self.notes@[j],
                    self.dim as int,
                ) by {
                    crate::store::lemma_filter_sub(old(self).notes@, keeps(text@), j);
                }
            }
            let index = rebuild_index(&self.notes, self.dim);
            self.index = index;
            Ok(())
        } else {
            proof {
                crate::store::lemma_remove_absent(old(self).notes@, text@);
            }
            Ok(())
        }
    }

    /// Answers a similarity query: the query embedding is normalized
    /// exactly as stored embeddings were, the index proposes up to `k`
    /// neighbours, and the verified ranking turns them into exactly
    /// `min(k, store size)` texts ordered by non-decreasing exact squared
    /// distance. Asking an empty store, or for `k = 0`, yields an empty
    /// result and no error.
    #[verifier::loop_isolation(false)]
    pub fn search(&self, query_embedding: &Vec<i32>, k: usize) -> (r: Result<
        Vec<(String, u64)>,
        SearchError,
    >)
        requires
            wf(*self),
        ensures
            (match r {
                Ok(res) => embedding_ok(query_embedding@, self.dim as int) && search_ok(
                    res@,
                    self.notes@,
                    normalize_spec(query_embedding@),
                    k as int,
                ),
                Err(e) => e == SearchError::Embedding && !embedding_ok(
                    query_embedding@,
                    self.dim as int,
                ),
            }),
    {
        if !check_embedding(query_embedding, self.dim) {
            return Err(SearchError::Embedding);
        }
        let nq = normalize(query_embedding);
        proof {
            lemma_int_range(0, self.notes@.len() as int);
            if self.notes@.len() == 0 {
                assert(pos_ids(0) =~= Set::<int>::empty());
            } else {
                assert(pos_ids(self.notes@.len() as int).contains(0));
                assert(ann_ids(self.index) != Set::<int>::empty());
            }
        }
        let ids = ann_search(&self.index, &nq, k, EF_CONSTRUCTION);
        let ranked = match rank_candidates(&self.notes, &nq, &ids, k) {
            Ok(r) => r,
            Err(_) => {
                proof {
                    let j = choose|j: int|
                        0 <= j < ids@.len() && ((#[trigger] ids@[j]) as int) >= self.notes@.len();
                    assert(ann_ids(self.index).contains(ids@[j] as int));
                    assert(false);
                }
                return Err(SearchError::Embedding);
            },
        };
        let mut res: Vec<(String, u64)> = Vec::new();
        let mut i: usize = 0;
        while i < ranked.len()
            invariant
                0 <= i <= ranked@.len(),
                res@.len() == i as int,
                forall|j: int|
                    0 <= j < i as int ==> (#[trigger] res@[j]).1 == ranked@[j].1 && (res@[j].0)@
                        == self.notes@[ranked@[j].0 as int].text@,
            decreases ranked@.len() - i,
        {
            let id = ranked[i].0;
            let d = ranked[i].1;
            let t = self.notes[id].text.clone();
            res.push((t, d));
            i = i + 1;
        }
        proof {
            assert forall|i2: int| 0 <= i2 < res@.len() implies hit_ok(
                #[trigger] res@[i2],
                self.notes@,
                normalize_spec(query_embedding@),
            ) by {
                let idw = ranked@[i2].0 as int;
                assert(0 <= idw && idw < self.notes@.len());
                assert(self.notes@[idw].text@ == ((res@[i2]).0)@);
                assert(res@[i2].1 == ranked@[i2].1);
                assert(ranked@[i2].1 as int == dist_sq_spec(self.notes@[idw].embedding@, nq@));
                assert(nq@ == normalize_spec(query_embedding@));
            }
            assert(search_ok(res@, self.notes@, normalize_spec(query_embedding@), k as int));
        }
        Ok(res)
    }
}


/// The smaller of two values.
pub open spec fn min_int(a: int, b: int) -> int {
    if a <= b {
        a
    } else {
        b
    }
}

/// No position appears twice.
pub open spec fn distinct_ids(s: Seq<usize>) -> bool {
    forall|i: int, j: int| #![trigger s[i], s[j]] 0 <= i < j < s.len() ==> s[i] != s[j]
}

/// What the ranking step promises: exactly `min(k, n)` distinct store
/// positions, each paired with its exact squared distance to the query,
/// in non-decreasing distance order.
pub open spec fn ranked_ok(res: Seq<(usize, u64)>, notes: Seq<NoteRecord>, nq: Seq<i32>, k: int) -> bool {
    &&& res.len() == min_int(k, notes.len() as int)
    &&& forall|i: int| 0 <= i < res.len() ==> (#[trigger] res[i]).0 < notes.len()
    &&& forall|i: int|
        0 <= i < res.len() ==> (#[trigger] res[i]).1 as int == dist_sq_spec(
            notes[res[i].0 as int].embedding@,
            nq,
        )
    &&& forall|i: int, j: int|
        #![trigger res[i], res[j]]
        0 <= i < j < res.len() ==> res[i].1 <= res[j].1
    &&& forall|i: int, j: int|
        #![trigger res[i], res[j]]
        0 <= i < j < res.len() ==> res[i].0 != res[j].0
}

/// Some entry of the result carries the position `id`.
pub open spec fn res_has_id(res: Seq<(usize, u64)>, id: usize) -> bool {
    exists|i: int| 0 <= i < res.len() && (#[trigger] res[i]).0 == id
}

/// Whether `ids` holds the value `x`.
fn contains_id(ids: &Vec<usize>, x: usize) -> (b: bool)
    ensures
        b == ids@.contains(x),
{
    let mut i: usize = 0;
    while i < ids.len()
        invariant
            0 <= i <= ids@.len(),
            forall|j: int| 0 <= j < i as int ==> #[trigger] ids@[j] != x,
        decreases ids@.len() - i,
    {
        if ids[i] == x {
            return true;
        }
        i = i + 1;
    }
    proof {
        assert(!ids@.contains(x));
    }
    false
}

/// The candidate list holds the position `v`.
pub open spec fn covers(cand: Seq<usize>, v: int) -> bool {
    exists|i: int| 0 <= i < cand.len() && (#[trigger] cand[i]) as int == v
}

/// A sequence of distinct positions that covers every position below `n`
/// holds at least `n` entries.
pub proof fn lemma_distinct_coverage(cand: Seq<usize>, n: int)
    requires
        distinct_ids(cand),
        forall|v: int| 0 <= v < n ==> #[trigger] covers(cand, v),
    ensures
        cand.len() >= n,
{
    broadcast use seq_to_set_is_finite;

    if n > 0 {
        let m = cand.map_values(|x: usize| x as int);
        assert(m.no_duplicates()) by {
            assert(forall|i: int, j: int|
                #![trigger m[i], m[j]]
                0 <= i < j < m.len() ==> m[i] != m[j]);
        }
        m.unique_seq_to_set();
        lemma_int_range(0, n);
        assert(set_int_range(0, n).subset_of(m.to_set())) by {
            assert forall|v: int| set_int_range(0, n).contains(v) implies m.to_set().contains(
                v,
            ) by {
                assert(covers(cand, v));
                let i = choose|i: int| 0 <= i < cand.len() && (#[trigger] cand[i]) as int == v;
                assert(m[i] == v);
                assert(m.contains(v));
            }
        }
        lemma_len_subset(set_int_range(0, n), m.to_set());
    }
}

/// A sequence of distinct positions below `n` holds at most `n` entries.
pub proof fn lemma_distinct_bound(cand: Seq<usize>, n: int)
    requires
        distinct_ids(cand),
        forall|p: int| 0 <= p < cand.len() ==> ((#[trigger] cand[p]) as int) < n,
        n >= 0,
    ensures
        cand.len() <= n,
{
    broadcast use seq_to_set_is_finite;

    let m = cand.map_values(|x: usize| x as int);
    assert(m.no_duplicates()) by {
        assert(forall|i: int, j: int| #![trigger m[i], m[j]] 0 <= i < j < m.len() ==> m[i] != m[j]);
    }
    m.unique_seq_to_set();
    lemma_int_range(0, n);
    assert(m.to_set().subset_of(set_int_range(0, n))) by {
        assert forall|v: int| m.to_set().contains(v) implies set_int_range(0, n).contains(v) by {
            let i = choose|i: int| 0 <= i < m.len() && m[i] == v;
            assert(((cand[i]) as int) < n);
        }
    }
    lemma_len_subset(m.to_set(), set_int_range(0, n));
}

/// Turns raw index answers into the definitive ranked result: rejects any
/// identifier outside the store as the index-to-store desynchronization
/// fault, removes duplicates, tops the candidate set up to `min(k, n)`
/// positions, computes each exact squared distance against the store, and
/// orders them ascending. Whatever the approximate index answered, the
/// result has exactly `min(k, n)` entries; when the index answered with at
/// most `k` identifiers, each valid one it named is kept.
#[verifier::rlimit(100)]
#[verifier::loop_isolation(false)]
pub fn rank_candidates(
    notes: &Vec<NoteRecord>,
    nq: &Vec<i32>,
    ids: &Vec<usize>,
    k: usize,
) -> (r: Result<Vec<(usize, u64)>, SearchError>)
    requires
        nq@.len() <= MAX_DIM as int,
        bounded(nq@, SCALE as int),
        forall|i: int|
            0 <= i < notes@.len() ==> (#[trigger] notes@[i]).embedding@.len() == nq@.len()
                && bounded(notes@[i].embedding@, SCALE as int),
    ensures
        (match r {
            Ok(res) => ranked_ok(res@, notes@, nq@, k as int) && (ids@.len() <= k as int
                ==> forall|j: int|
                0 <= j < ids@.len() ==> res_has_id(res@, #[trigger] ids@[j])),
            Err(e) => e == SearchError::Index && exists|j: int|
                0 <= j < ids@.len() && ((#[trigger] ids@[j]) as int) >= notes@.len(),
        }),
{
    let n = notes.len();
    let m = if k < n {
        k
    } else {
        n
    };
    // every identifier must be a live store position
    let mut v: usize = 0;
    while v < ids.len()
        invariant
            0 <= v <= ids@.len(),
            forall|j: int| 0 <= j < v as int ==> ((#[trigger] ids@[j]) as int) < n as int,
        decreases ids@.len() - v,
    {
        if ids[v] >= n {
            return Err(SearchError::Index);
        }
        v = v + 1;
    }
    // drop duplicates, keeping first occurrences
    let mut cand: Vec<usize> = Vec::new();
    let mut j: usize = 0;
    while j < ids.len()
        invariant
            0 <= j <= ids@.len(),
            distinct_ids(cand@),
            cand@.len() <= j as int,
            forall|p: int| 0 <= p < cand@.len() ==> ((#[trigger] cand@[p]) as int) < n as int,
            forall|p: int| 0 <= p < j as int ==> cand@.contains(#[trigger] ids@[p]),
            forall|p: int| 0 <= p < cand@.len() ==> ids@.contains(#[trigger] cand@[p]),
        decreases ids@.len() - j,
    {
        let x = ids[j];
        let ghost before = cand@;
        if !contains_id(&cand, x) {
            cand.push(x);
            proof {
                assert(forall|p: int| 0 <= p < before.len() ==> #[trigger] before[p] != x);
                assert(forall|p: int| 0 <= p < before.len() ==> cand@[p] == #[trigger] before[p]);
                assert(cand@[cand@.len() - 1] == x);
            }
        }
        j = j + 1;
    }
    // top the candidates up to m positions
    proof {
        if ids@.len() <= k as int {
            lemma_distinct_bound(cand@, n as int);
        }
    }
    let ghost few = ids@.len() <= k as int;
    let mut next: usize = 0;
    while next < n
        invariant
            0 <= next <= n,
            distinct_ids(cand@),
            forall|p: int| 0 <= p < cand@.len() ==> ((#[trigger] cand@[p]) as int) < n as int,
            forall|p: int| 0 <= p < ids@.len() ==> cand@.contains(#[trigger] ids@[p]),
            few ==> cand@.len() <= m as int,
            cand@.len() < m as int ==> forall|w: int|
                0 <= w < next as int ==> #[trigger] covers(cand@, w),
        decreases n - next,
    {
        let ghost before = cand@;
        if cand.len() < m {
            if !contains_id(&cand, next) {
                cand.push(next);
                proof {
                    assert(forall|q: int|
                        0 <= q < before.len() ==> cand@[q] == #[trigger] before[q]);
                    assert(cand@[cand@.len() - 1] == next);
                    assert forall|p: int| 0 <= p < ids@.len() implies cand@.contains(
                        #[trigger] ids@[p],
                    ) by {
                        let q = choose|q: int| 0 <= q < before.len() && #[trigger] before[q]
                            == ids@[p];
                        assert(cand@[q] == ids@[p]);
                    }
                }
            }
        }
        proof {
            if cand@.len() < m as int {
                assert forall|w: int| 0 <= w < next as int + 1 implies #[trigger] covers(
                    cand@,
                    w,
                ) by {
                    if w == next as int {
                        if before.contains(next) {
                            let q = choose|q: int| 0 <= q < before.len() && #[trigger] before[q]
                                == next;
                            assert((cand@[q]) as int == w);
                        } else {
                            assert((cand@[cand@.len() - 1]) as int == w);
                        }
                    } else {
                        assert(covers(before, w));
                        if cand@ != before {
                            let q = choose|q: int| 0 <= q < before.len() && (
                            #[trigger] before[q]) as int == w;
                            assert((cand@[q]) as int == w);
                        }
                    }
                }
            }
        }
        next = next + 1;
    }
    proof {
        if cand@.len() < m as int {
            lemma_distinct_coverage(cand@, n as int);
            assert(m as int <= n as int);
            assert(false);
        }
    }
    // exact distances, inserted in non-decreasing order
    let mut out: Vec<(usize, u64)> = Vec::new();
    let mut c: usize = 0;
    while c < cand.len() && out.len() < m
        invariant
            0 <= c <= cand@.len(),
            out@.len() == min_int(c as int, m as int),
            forall|i: int| 0 <= i < out@.len() ==> (#[trigger] out@[i]).0 < n,
            forall|i: int|
                0 <= i < out@.len() ==> (#[trigger] out@[i]).1 as int == dist_sq_spec(
                    notes@[out@[i].0 as int].embedding@,
                    nq@,
                ),
            forall|i: int, j2: int|
                #![trigger out@[i], out@[j2]]
                0 <= i < j2 < out@.len() ==> out@[i].1 <= out@[j2].1,
            forall|i: int, j2: int|
                #![trigger out@[i], out@[j2]]
                0 <= i < j2 < out@.len() ==> out@[i].0 != out@[j2].0,
            forall|i: int|
                0 <= i < out@.len() ==> exists|p: int|
                    0 <= p < c as int && #[trigger] cand@[p] == ((#[trigger] out@[i]).0),
            c as int <= m as int ==> forall|p: int|
                0 <= p < c as int ==> res_has_id(out@, #[trigger] cand@[p]),
        decreases cand@.len() - c,
    {
        let id = cand[c];
        let d = dist_sq(&notes[id].embedding, nq);
        // find the insertion point that keeps the order
        let mut p: usize = 0;
        while p < out.len() && out[p].1 <= d
            invariant
                0 <= p <= out@.len(),
                forall|i: int| 0 <= i < p as int ==> (#[trigger] out@[i]).1 <= d,
            decreases out@.len() - p,
        {
            p = p + 1;
        }
        let ghost before = out@;
        out.insert(p, (id, d));
        proof {
            assert(out@ =~= before.take(p as int) + seq![(id, d)] + before.skip(p as int));
            assert(forall|i: int| 0 <= i < p as int ==> out@[i] == before[i]);
            assert(out@[p as int] == (id, d));
            assert(forall|i: int|
                (p as int) < i < out@.len() ==> out@[i] == before[i - 1]);
            assert(c < m);
            assert forall|i: int| 0 <= i < out@.len() implies exists|p3: int|
                0 <= p3 < c as int + 1 && #[trigger] cand@[p3] == ((#[trigger] out@[i]).0) by {
                if i == p as int {
                    assert(cand@[c as int] == (out@[i]).0);
                } else {
                    let ib = if i < p as int {
                        i
                    } else {
                        i - 1
                    };
                    let p3 = choose|p3: int|
                        0 <= p3 < c as int && #[trigger] cand@[p3] == (before[ib]).0;
                    assert(cand@[p3] == (out@[i]).0);
                }
            }
            assert forall|i: int, j3: int|
                #![trigger out@[i], out@[j3]]
                0 <= i < j3 < out@.len() implies out@[i].0 != out@[j3].0 by {
                let ib = if i < p as int {
                    i
                } else {
                    i - 1
                };
                let jb = if j3 < p as int {
                    j3
                } else {
                    j3 - 1
                };
                if i == p as int {
                    let pj = choose|p3: int|
                        0 <= p3 < c as int && #[trigger] cand@[p3] == (before[jb]).0;
                    assert(cand@[c as int] != cand@[pj]);
                } else if j3 == p as int {
                    let pi = choose|p3: int|
                        0 <= p3 < c as int && #[trigger] cand@[p3] == (before[ib]).0;
                    assert(cand@[c as int] != cand@[pi]);
                } else {
                    assert(before[ib].0 != before[jb].0);
                }
            }
            assert forall|p2: int| 0 <= p2 < c as int + 1 implies res_has_id(
                out@,
                #[trigger] cand@[p2],
            ) by {
                if p2 < c as int {
                    if c as int + 1 <= m as int {
                        let w = choose|w: int|
                            0 <= w < before.len() && (#[trigger] before[w]).0 == cand@[p2];
                        if w < p as int {
                            assert(out@[w].0 == cand@[p2]);
                        } else {
                            assert(out@[w + 1].0 == cand@[p2]);
                        }
                    }
                } else {
                    assert(out@[p as int].0 == cand@[p2]);
                }
            }
        }
        c = c + 1;
    }
    proof {
        if out@.len() < m as int {
            assert(c as int == cand@.len());
            assert(out@.len() == min_int(cand@.len() as int, m as int));
            assert(false);
        }
        assert(out@.len() == m as int);
        if ids@.len() <= k as int {
            assert(cand@.len() <= m as int);
            assert(c as int == m as int);
            assert forall|j2: int| 0 <= j2 < ids@.len() implies res_has_id(
                out@,
                #[trigger] ids@[j2],
            ) by {
                assert(cand@.contains(ids@[j2]));
                let q = choose|q: int| 0 <= q < cand@.len() && #[trigger] cand@[q] == ids@[j2];
                assert(res_has_id(out@, cand@[q]));
            }
        }
    }
    Ok(out)
}


/// Adding a note and querying with the same embedding puts a zero distance
/// at the top: the note and the query normalize to one vector, so the
/// store's newest position is at distance zero, and whenever the index
/// names that position among its answers the ranking leads with distance
/// zero and the top entry's record is at distance zero from the query. The
/// one assumption is that the approximate index names the new position at
/// all; the graph's own answer set is not specified.
pub proof fn law_self_match(
    res: Seq<(usize, u64)>,
    notes: Seq<NoteRecord>,
    e: Seq<i32>,
    k: int,
    id: usize,
)
    requires
        ranked_ok(res, notes, normalize_spec(e), k),
        k >= 1,
        notes.len() >= 1,
        id as int == notes.len() - 1,
        notes[id as int].embedding@ == normalize_spec(e),
        res_has_id(res, id),
    ensures
        res.len() >= 1,
        res[0].1 == 0,
        dist_sq_spec(notes[res[0].0 as int].embedding@, normalize_spec(e)) == 0,
{
    crate::vecmath::lemma_dist_sq_self(normalize_spec(e));
    let i = choose|i: int| 0 <= i < res.len() && (#[trigger] res[i]).0 == id;
    assert(res[i].1 as int == dist_sq_spec(notes[id as int].embedding@, normalize_spec(e)));
    assert(res[i].1 == 0);
    assert(res[0].1 <= res[i].1);
    crate::vecmath::lemma_dist_sq_nonneg(notes[res[0].0 as int].embedding@, normalize_spec(e));
}

/// After a removal, the removed text cannot come back from a query: every
/// result entry carries a surviving record's text, no survivor has the
/// removed text, and the store shrank by exactly the number of exact
/// matches removed.
pub proof fn law_removed_gone(
    survivors: Seq<NoteRecord>,
    orig: Seq<NoteRecord>,
    t: Seq<char>,
    res: Seq<(String, u64)>,
    nq: Seq<i32>,
)
    requires
        survivors == orig.filter(keeps(t)),
        forall|i: int| 0 <= i < res.len() ==> hit_ok(#[trigger] res[i], survivors, nq),
    ensures
        forall|i: int| 0 <= i < res.len() ==> ((#[trigger] res[i]).0)@ != t,
        survivors.len() + orig.filter(crate::store::drops(t)).len() == orig.len(),
{
    crate::store::lemma_remove_partition(orig, t);
    assert forall|i: int| 0 <= i < res.len() implies ((#[trigger] res[i]).0)@ != t by {
        assert(hit_ok(res[i], survivors, nq));
        let id = choose|id: int|
            0 <= id < survivors.len() && (#[trigger] survivors[id]).text@ == (res[i].0)@;
        Seq::lemma_filter_pred(orig, keeps(t), id);
    }
}

} // verus!
