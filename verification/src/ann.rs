//! The approximate nearest-neighbour index.
//!
//! The index is hnsw_rs's hierarchical navigable small world graph over
//! fixed-point vectors. It is kept behind a small trusted surface: the
//! library tracks, as `ann_ids`, which identifiers have been inserted, as
//! `ann_vecs` the vector last inserted under each, and as `ann_dim` the
//! vector length its distance evaluations expect. Which neighbours a search
//! returns, and how many, is the graph's own approximate choice: nothing is
//! assumed about it beyond the identifiers being inserted ones, and the
//! verified ranking layer re-derives exact distances and ordering from the
//! store.

use vstd::prelude::*;
use hnsw_rs::prelude::Hnsw;
use hnsw_rs::prelude::DistL2;

verus! {

/// A nearest-neighbour index over fixed-point vectors. Identifiers are the
/// caller's; the search service uses store positions.
#[verifier::external_body]
pub struct AnnIndex {
    inner: Hnsw<'static, i32, DistL2>,
}

/// The set of identifiers inserted into the index since it was built.
pub uninterp spec fn ann_ids(a: AnnIndex) -> Set<int>;

/// The vector length the index's distance evaluations expect, fixed by the
/// first insertion.
pub uninterp spec fn ann_dim(a: AnnIndex) -> nat;

/// The vectors the index holds, by identifier: what was most recently
/// inserted under each. The service keeps identifiers unique per build, so
/// for it this is exactly the position-to-embedding association.
pub uninterp spec fn ann_vecs(a: AnnIndex) -> Map<int, Seq<i32>>;

/// Relies on `hnsw_rs::hnsw::Hnsw::new`: builds an empty index with the given
/// construction parameters. The crate exits the process when asked for more
/// than 256 connections per layer, derives its level scale from the
/// logarithm of the connection count, and samples insertion levels below
/// `max_layer`, so the degenerate extremes of both parameters are excluded
/// here: they would abort or panic on later insertions.
#[verifier::external_body]
pub fn ann_new(max_conn: usize, max_elements: usize, max_layer: usize, ef_construction: usize) -> (
    r: AnnIndex)
    requires
        2 <= max_conn <= 256,
        1 <= max_layer,
    ensures
        ann_ids(r) == Set::<int>::empty(),
{
    AnnIndex { inner: Hnsw::new(max_conn, max_elements, max_layer, ef_construction, DistL2 {}) }
}

/// Relies on `hnsw_rs::hnsw::Hnsw::insert`: adds one vector under the
/// caller's identifier, leaving what is stored under every other identifier
/// untouched. The crate's distance function asserts equal vector lengths,
/// so after the first insertion every vector (and every query) must have
/// the same dimension; insertion itself accepts any identifier.
#[verifier::external_body]
pub fn ann_insert(a: &mut AnnIndex, v: &Vec<i32>, id: usize)
    requires
        ann_ids(*old(a)) != Set::<int>::empty() ==> v@.len() == ann_dim(*old(a)),
    ensures
        ann_ids(*final(a)) == ann_ids(*old(a)).insert(id as int),
        ann_vecs(*final(a)) == ann_vecs(*old(a)).insert(id as int, v@),
        ann_dim(*final(a)) == v@.len(),
{
    a.inner.insert((v.as_slice(), id));
}

/// Relies on `hnsw_rs::hnsw::Hnsw::search`: returns the identifiers of at
/// most `k` previously inserted vectors, nearest first by its own
/// approximate measure; an empty index yields an empty answer. Which and how
/// many identifiers come back is not promised by the crate, so nothing more
/// is assumed; the caller re-ranks them against the store.
#[verifier::external_body]
pub fn ann_search(a: &AnnIndex, q: &Vec<i32>, k: usize, ef: usize) -> (r: Vec<usize>)
    requires
        ann_ids(*a) != Set::<int>::empty() ==> q@.len() == ann_dim(*a),
    ensures
        r@.len() <= k as int,
        forall|i: int| 0 <= i < r@.len() ==> ann_ids(*a).contains(#[trigger] r@[i] as int),
{
    a.inner.search(q.as_slice(), k, ef).into_iter().map(|n| n.d_id).collect()
}

} // verus!
