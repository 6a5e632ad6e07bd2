//! The index store: owner of zero-or-one built graph, with bulk rebuild,
//! read-only search, a load probe and explicit invalidation.
//!
//! The graph construction and traversal algorithm itself (a hierarchical
//! layered small-world graph) is a caller-supplied primitive behind the
//! [`AnnGraph`] trait; the store owns the lifecycle around it and ranks
//! whatever candidates a traversal yields.

use vstd::prelude::*;
use vstd::pervasive::VecAdditionalExecFns;
use crate::points::EmbeddingPoint;
use crate::ranking::Candidate;
use crate::ranking::HnswSearchResult;
use crate::ranking::candidates_sorted;
use crate::ranking::distinct_positions;
use crate::ranking::sort_candidates;
use crate::ranking::sorted_by_distance;

verus! {

broadcast use vstd::set::group_set_axioms;

/// Why an operation could not serve a result.
#[derive(Clone, Copy, Debug, PartialEq, Eq)]
pub enum HnswError {
    /// No index is installed: build one first.
    NotInitialized,
    /// A batch mixes embedding widths, or a query's width differs from the
    /// width the index was built with.
    InvalidInput,
}

/// The approximate-nearest-neighbour graph primitive. The store builds one
/// graph per successful non-empty build and asks it for search candidates;
/// nothing is assumed of the candidates beyond their type, and the store
/// ranks and truncates them itself.
pub trait AnnGraph: Sized {
    /// Construct a graph over the given points.
    fn build_graph(points: &Vec<EmbeddingPoint>) -> (graph: Self)
        requires
            points@.len() > 0,
    ;

    /// Walk the graph from the query, yielding candidate neighbours by
    /// their position in the point list the graph was built over, nearest
    /// first by the graph's own reckoning. Candidates are advisory: the
    /// store drops out-of-range and repeated positions, completes short
    /// lists, and ranks the result itself.
    fn traverse(&self, query: &Vec<u32>) -> (candidates: Vec<Candidate>);

    /// Distance from the query to the indexed point at `position` in the
    /// point list the graph was built over.
    fn distance_to(&self, query: &Vec<u32>, position: usize) -> (distance_bits: u32);
}

struct LoadedIndex<G> {
    points: Vec<EmbeddingPoint>,
    dimension: usize,
    graph: G,
}

/// A store holding at most one current index. Structural changes (build,
/// clear) take `&mut`; search and the load probe take `&self`. A caller
/// that shares one store across threads puts it behind a lock.
pub struct HnswIndexStore<G> {
    current: Option<LoadedIndex<G>>,
}

/// Every embedding of the batch has the same width as the first.
pub open spec fn batch_dims_uniform(batch: Seq<(i64, Vec<u32>)>) -> bool {
    forall|i: int| 0 <= i < batch.len() ==> #[trigger] batch[i].1@.len() == batch[0].1@.len()
}

/// Every hit names an indexed point of `pts`, and no point twice: there
/// is an injective assignment of hits to positions, and each hit carries
/// the identifier at its position, returned verbatim. An identifier not
/// in `pts` — the query's own, or any other — can never appear, and one
/// may repeat among the hits only as often as `pts` itself repeats it.
pub open spec fn hits_from_points(hits: Seq<HnswSearchResult>, pts: Seq<EmbeddingPoint>) -> bool {
    exists|ps: Seq<int>|
        #[trigger] ps.no_duplicates() && ps.len() == hits.len() && forall|i: int|
            0 <= i < hits.len() ==> 0 <= #[trigger] ps[i] < pts.len() && hits[i].id
                == pts[ps[i]].id
}

/// `pts` is exactly the batch, point by point: same identifiers, same
/// embeddings, same order.
pub open spec fn points_match_batch(pts: Seq<EmbeddingPoint>, batch: Seq<(i64, Vec<u32>)>) -> bool {
    &&& pts.len() == batch.len()
    &&& forall|i: int|
        0 <= i < batch.len() ==> #[trigger] pts[i].id == batch[i].0 && pts[i].embedding@
            == batch[i].1@
}

impl<G> HnswIndexStore<G> {
    /// True iff an index is currently installed.
    pub closed spec fn is_loaded_spec(&self) -> bool {
        self.current is Some
    }

    /// The points the current index was built from; empty when none is.
    pub closed spec fn points_view(&self) -> Seq<EmbeddingPoint> {
        match self.current {
            Some(ix) => ix.points@,
            None => Seq::empty(),
        }
    }

    /// The embedding width the current index was built with.
    pub closed spec fn dimension_spec(&self) -> nat {
        match self.current {
            Some(ix) => ix.dimension as nat,
            None => 0,
        }
    }

    /// A loaded store was built from a non-empty batch of uniform width.
    pub open spec fn wf(&self) -> bool {
        self.is_loaded_spec() ==> self.points_view().len() > 0 && forall|i: int|
            0 <= i < self.points_view().len() ==> #[trigger] self.points_view()[i].dim()
                == self.dimension_spec()
    }

    /// A fresh, empty store: nothing loaded, search refused until a build.
    pub fn new() -> (store: Self)
        ensures
            !store.is_loaded_spec(),
            store.wf(),
    {
        HnswIndexStore { current: None }
    }

    /// True iff an index is currently installed. Never fails, changes
    /// nothing.
    pub fn is_hnsw_index_loaded(&self) -> (loaded: bool)
        ensures
            loaded == self.is_loaded_spec(),
    {
        self.current.is_some()
    }

    /// Drop the current index, returning the store to empty. Always
    /// succeeds; on an already-empty store it is a no-op, so clearing
    /// twice leaves the same empty store as clearing once.
    pub fn clear_hnsw_index(&mut self)
        ensures
            !final(self).is_loaded_spec(),
            final(self).points_view() == Seq::<EmbeddingPoint>::empty(),
            final(self).wf(),
    {
        self.current = None;
    }
}

impl<G: AnnGraph> HnswIndexStore<G> {
    /// Build an index over the batch and install it in place of any
    /// previous one.
    ///
    /// An empty batch is a deliberate no-op, not a clear: the store is left
    /// exactly as it was, successfully. A batch that mixes embedding widths
    /// is refused with `InvalidInput`, also leaving the store untouched.
    /// Any other batch replaces the current index: afterwards the store is
    /// loaded, holds exactly the batch's points, and records the batch's
    /// embedding width.
    pub fn build_hnsw_index(&mut self, points: Vec<(i64, Vec<u32>)>) -> (r: Result<
        (),
        HnswError,
    >)
        requires
            old(self).wf(),
        ensures
            final(self).wf(),
            points@.len() == 0 ==> r is Ok && *final(self) == *old(self),
            points@.len() > 0 && !batch_dims_uniform(points@) ==> r == Err::<(), HnswError>(
                HnswError::InvalidInput,
            ) && *final(self) == *old(self),
            points@.len() > 0 && batch_dims_uniform(points@) ==> r is Ok
                && final(self).is_loaded_spec()
                && points_match_batch(final(self).points_view(), points@)
                && final(self).dimension_spec() == points@[0].1@.len(),
    {
        if points.is_empty() {
            return Ok(());
        }
        let dimension: usize = points[0].1.len();
        let mut embedded: Vec<EmbeddingPoint> = Vec::new();
        let mut k: usize = 0;
        while k < points.len()
            invariant
                *self == *old(self),
                old(self).wf(),
                0 <= k <= points@.len(),
                points@.len() > 0,
                dimension == points@[0].1@.len(),
                embedded@.len() == k,
                forall|i: int|
                    0 <= i < k ==> (#[trigger] embedded@[i]).id == points@[i].0
                        && embedded@[i].embedding@ == points@[i].1@,
                forall|i: int| 0 <= i < k ==> #[trigger] points@[i].1@.len() == dimension,
            decreases points@.len() - k,
        {
            if points[k].1.len() != dimension {
                proof {
                    assert(points@[k as int].1@.len() != points@[0].1@.len());
                }
                return Err(HnswError::InvalidInput);
            }
            let embedding = points[k].1.clone();
            proof {
                assert(embedding@ =~= points@[k as int].1@);
            }
            embedded.push(EmbeddingPoint { id: points[k].0, embedding });
            k += 1;
        }
        proof {
            assert forall|i: int| 0 <= i < embedded@.len() implies #[trigger] embedded@[i].dim()
                == dimension as nat by {
                assert(embedded@[i].embedding@ == points@[i].1@);
                assert(points@[i].1@.len() == dimension);
            }
        }
        let graph = G::build_graph(&embedded);
        self.current = Some(LoadedIndex { points: embedded, dimension, graph });
        Ok(())
    }

    /// Search the current index for the `top_k` points nearest the query.
    ///
    /// Fails with `NotInitialized` iff no index is installed, and with
    /// `InvalidInput` iff one is but the query's width differs from the
    /// width the index was built with; succeeds on every other input. A
    /// successful result holds exactly `min(top_k, n)` hits over an index
    /// of `n` points, in ascending distance order, each naming a distinct
    /// indexed point by its identifier, returned verbatim — whatever the
    /// graph primitive yielded. Which points are nearest is the graph's
    /// approximate answer; the distances are its reckoning.
    pub fn search_hnsw(&self, query_embedding: Vec<u32>, top_k: usize) -> (r: Result<
        Vec<HnswSearchResult>,
        HnswError,
    >)
        ensures
            !self.is_loaded_spec() ==> r == Err::<Vec<HnswSearchResult>, HnswError>(
                HnswError::NotInitialized,
            ),
            self.is_loaded_spec() && query_embedding@.len() != self.dimension_spec() ==> r
                == Err::<Vec<HnswSearchResult>, HnswError>(HnswError::InvalidInput),
            self.is_loaded_spec() && query_embedding@.len() == self.dimension_spec() ==> r is Ok,
            r matches Ok(hits) ==> hits@.len() == vstd::math::min(
                top_k as int,
                self.points_view().len() as int,
            ) && sorted_by_distance(hits@) && hits_from_points(hits@, self.points_view()),
    {
        let index = match &self.current {
            None => {
                return Err(HnswError::NotInitialized);
            },
            Some(ix) => ix,
        };
        if query_embedding.len() != index.dimension {
            return Err(HnswError::InvalidInput);
        }
        let n: usize = index.points.len();
        let need: usize = if top_k < n {
            top_k
        } else {
            n
        };
        let raw = index.graph.traverse(&query_embedding);

        // Candidate positions, first occurrence of each, out-of-range ones
        // dropped.
        let mut seen: Vec<bool> = vec![false; n];
        let mut pool: Vec<Candidate> = Vec::new();
        let mut t: usize = 0;
        while t < raw.len() && pool.len() < n
            invariant
                seen@.len() == n,
                pool@.len() <= n,
                t <= raw@.len(),
                distinct_positions(pool@),
                forall|j: int| 0 <= j < pool@.len() ==> (#[trigger] pool@[j]).position < n,
                forall|j: int|
                    0 <= j < pool@.len() ==> seen@[(#[trigger] pool@[j]).position as int],
                forall|p: int|
                    0 <= p < n && #[trigger] seen@[p] ==> exists|j: int|
                        0 <= j < pool@.len() && (#[trigger] pool@[j]).position == p,
            decreases raw@.len() - t,
        {
            let c = raw[t];
            if c.position < n && !seen[c.position] {
                let ghost before = pool@;
                seen.set(c.position, true);
                pool.push(c);
                proof {
                    assert forall|p: int|
                        0 <= p < n && #[trigger] seen@[p] implies exists|j: int|
                        0 <= j < pool@.len() && (#[trigger] pool@[j]).position == p by {
                        if p == c.position as int {
                            assert(pool@[before.len() as int].position == p);
                        } else {
                            let j = choose|j: int|
                                0 <= j < before.len() && (#[trigger] before[j]).position == p;
                            assert(pool@[j].position == p);
                        }
                    }
                }
            }
            t += 1;
        }

        // Too few candidates: complete with the remaining points, so that
        // a short or empty traversal still yields `min(top_k, n)` hits.
        let mut pos: usize = 0;
        while pos < n && pool.len() < need
            invariant
                need <= n,
                seen@.len() == n,
                pos <= n,
                pool@.len() <= n,
                distinct_positions(pool@),
                forall|j: int| 0 <= j < pool@.len() ==> (#[trigger] pool@[j]).position < n,
                forall|j: int|
                    0 <= j < pool@.len() ==> seen@[(#[trigger] pool@[j]).position as int],
                forall|p: int|
                    0 <= p < n && #[trigger] seen@[p] ==> exists|j: int|
                        0 <= j < pool@.len() && (#[trigger] pool@[j]).position == p,
                forall|q: int| 0 <= q < pos ==> #[trigger] seen@[q],
            decreases n - pos,
        {
            if !seen[pos] {
                let d = index.graph.distance_to(&query_embedding, pos);
                let ghost before = pool@;
                seen.set(pos, true);
                pool.push(Candidate { position: pos, distance_bits: d });
                proof {
                    assert forall|p: int|
                        0 <= p < n && #[trigger] seen@[p] implies exists|j: int|
                        0 <= j < pool@.len() && (#[trigger] pool@[j]).position == p by {
                        if p == pos as int {
                            assert(pool@[before.len() as int].position == p);
                        } else {
                            let j = choose|j: int|
                                0 <= j < before.len() && (#[trigger] before[j]).position == p;
                            assert(pool@[j].position == p);
                        }
                    }
                }
            }
            pos += 1;
        }
        proof {
            lemma_pool_covers(pool@, seen@, n as int, need as int, pos as int);
        }

        sort_candidates(&mut pool, Ghost(n as int));
        let ghost sorted_pool = pool@;
        pool.truncate(need);
        proof {
            assert(pool@ == sorted_pool.subrange(0, need as int));
            assert(candidates_sorted(pool@));
            assert(distinct_positions(pool@));
            assert(forall|j: int| 0 <= j < pool@.len() ==> (#[trigger] pool@[j]).position < n);
        }

        // Turn positions into the identifiers stored at them.
        let mut hits: Vec<HnswSearchResult> = Vec::new();
        let mut h: usize = 0;
        while h < pool.len()
            invariant
                hits@.len() == h,
                h <= pool@.len(),
                n == index.points@.len(),
                forall|j: int| 0 <= j < pool@.len() ==> (#[trigger] pool@[j]).position < n,
                forall|j: int|
                    0 <= j < h ==> (#[trigger] hits@[j]).id
                        == index.points@[pool@[j].position as int].id && hits@[j].distance_bits
                        == pool@[j].distance_bits,
            decreases pool@.len() - h,
        {
            let c = pool[h];
            let point_id = index.points[c.position].id;
            hits.push(HnswSearchResult { id: point_id, distance_bits: c.distance_bits });
            h += 1;
        }
        proof {
            lemma_hits_shape(hits@, pool@, index.points@);
            assert(self.points_view() == index.points@);
        }
        Ok(hits)
    }
}

/// The pool holds at least `need` candidates: either the fill stopped at
/// `need`, or it scanned every position, and then the pool's distinct
/// in-range positions cover all `n` of them.
proof fn lemma_pool_covers(pool: Seq<Candidate>, seen: Seq<bool>, n: int, need: int, pos: int)
    requires
        need <= n,
        seen.len() == n,
        pos <= n,
        distinct_positions(pool),
        forall|j: int| 0 <= j < pool.len() ==> (#[trigger] pool[j]).position < n,
        forall|p: int|
            0 <= p < n && #[trigger] seen[p] ==> exists|j: int|
                0 <= j < pool.len() && (#[trigger] pool[j]).position == p,
        forall|q: int| 0 <= q < pos ==> #[trigger] seen[q],
        pos == n || pool.len() >= need,
    ensures
        pool.len() >= need,
{
    if pool.len() < need {
        let ps = pool.map_values(|c: Candidate| c.position as int);
        assert(ps.no_duplicates()) by {
            assert forall|a: int, b: int|
                0 <= a < ps.len() && 0 <= b < ps.len() && a != b implies ps[a] != ps[b] by {
                if a < b {
                    assert(pool[a].position != pool[b].position);
                } else {
                    assert(pool[b].position != pool[a].position);
                }
            }
        }
        ps.unique_seq_to_set();
        vstd::set_lib::lemma_int_range(0, n);
        assert(vstd::set_lib::set_int_range(0, n).subset_of(ps.to_set())) by {
            assert forall|p: int|
                vstd::set_lib::set_int_range(0, n).contains(p) implies ps.to_set().contains(
                p,
            ) by {
                assert(seen[p]);
                let j = choose|j: int| 0 <= j < pool.len() && (#[trigger] pool[j]).position == p;
                assert(ps[j] == p);
                assert(ps.contains(p));
            }
        }
        vstd::set_lib::lemma_len_subset(
            vstd::set_lib::set_int_range(0, n),
            ps.to_set(),
        );
        assert(ps.to_set().len() >= n);
        assert(pool.len() >= n);
    }
}

/// Each hit copies the identifier stored at its candidate's position, so
/// the hits are sorted as the candidates were and name pairwise-distinct
/// positions of the point list.
proof fn lemma_hits_shape(hits: Seq<HnswSearchResult>, pool: Seq<Candidate>, pts: Seq<EmbeddingPoint>)
    requires
        hits.len() == pool.len(),
        candidates_sorted(pool),
        distinct_positions(pool),
        forall|j: int| 0 <= j < pool.len() ==> (#[trigger] pool[j]).position < pts.len(),
        forall|j: int|
            0 <= j < hits.len() ==> (#[trigger] hits[j]).id == pts[pool[j].position as int].id
                && hits[j].distance_bits == pool[j].distance_bits,
    ensures
        sorted_by_distance(hits),
        hits_from_points(hits, pts),
{
    let ps = pool.map_values(|c: Candidate| c.position as int);
    assert(ps.no_duplicates()) by {
        assert forall|a: int, b: int|
            0 <= a < ps.len() && 0 <= b < ps.len() && a != b implies ps[a] != ps[b] by {
            if a < b {
                assert(pool[a].position != pool[b].position);
            } else {
                assert(pool[b].position != pool[a].position);
            }
        }
    }
    assert forall|i: int| 0 <= i < hits.len() implies 0 <= #[trigger] ps[i] < pts.len()
        && hits[i].id == pts[ps[i]].id by {
        assert(ps[i] == pool[i].position as int);
    }
    assert(hits_from_points(hits, pts));
}

} // verus!
