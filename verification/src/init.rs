//! Initializers: building a fresh genotype from nothing.
//!
//! Both builders work pre-order and consult only the sampler and the
//! injected random source, one draw per node. `Grow` keeps each path's depth
//! inside a band, giving irregular shapes; `Full` grows every path to one
//! exact depth.

use vstd::prelude::*;

use crate::errors::GPError;
use crate::rng::Rng;
use crate::sampler::{filter_matches, ArityFilter, OperatorSampler};
use crate::sampler::lemma_unique_symbol_arity;
use crate::shape::{full_shape, grow_shape, kth_child, parse, valid_arities};
use crate::shape::{lemma_bounds_are_children, lemma_grow_shape_frame, lemma_grow_shape_full};
use crate::shape::{lemma_grow_shape_mono, lemma_parse_compose, lemma_parse_count};
use crate::shape::lemma_parse_frame;
use crate::tree::{arena_view, labels_known, spec_label_arity, tree_arities, TreeGenotype};
use crate::tree::lemma_tree_arities_nonneg;

verus! {

/// Appends one complete subtree to `arena`: a node drawn within the depth
/// band `[mind, maxd]`, then, recursively, one subtree per unit of its
/// arity. On success the appended span parses as exactly one tree whose
/// every label carries an arity; the prefix already in `arena` is untouched.
fn grow_arena<R: Rng>(
    rng: &mut R,
    sampler: &OperatorSampler,
    mind: usize,
    maxd: usize,
    arena: &mut Vec<String>,
) -> (r: Result<(), GPError>)
    requires
        sampler.parallel(),
        sampler.names_unique(),
        mind <= maxd,
    ensures
        match r {
            Ok(()) => ({
                let la = tree_arities(*sampler, final(arena)@);
                &&& old(arena)@.len() < final(arena)@.len()
                &&& final(arena)@.subrange(0, old(arena)@.len() as int) == old(arena)@
                &&& parse(la, old(arena)@.len() as int, 1) == Some(final(arena)@.len() as int)
                &&& grow_shape(la, old(arena)@.len() as int, mind as int, maxd as int)
                &&& forall|j: int|
                    old(arena)@.len() <= j < final(arena)@.len() ==> #[trigger] spec_label_arity(
                        *sampler,
                        arena_view(final(arena)@)[j],
                    ) is Some
                &&& forall|j: int|
                    old(arena)@.len() <= j < final(arena)@.len() ==> sampler.spec_arity_of(
                        #[trigger] arena_view(final(arena)@)[j],
                    ) is Some
            }),
            Err(e) => {
                &&& (e == GPError::EmptyCatalog || e == GPError::NoMatchingArity)
                &&& !(sampler.has_weighted(ArityFilter::Exactly(0)) && sampler.has_weighted(
                    ArityFilter::Function,
                ))
            },
        },
    decreases maxd,
{
    let ghost n0 = arena@.len() as int;
    let sym = if mind > 0 {
        match sampler.sample_function(rng) {
            Ok(s) => s,
            Err(e) => {
                return Err(e);
            },
        }
    } else if maxd == 0 {
        match sampler.sample_terminal(rng) {
            Ok(s) => s,
            Err(e) => {
                return Err(e);
            },
        }
    } else {
        match sampler.sample_any(rng) {
            Ok(s) => s,
            Err(e) => {
                proof {
                    // A positive-weight terminal would already pass the
                    // unrestricted draw, which just found nothing.
                    if sampler.has_weighted(ArityFilter::Exactly(0)) {
                        let w = choose|w: int|
                            0 <= w < sampler.catalog_len() && filter_matches(
                                ArityFilter::Exactly(0),
                                sampler.arities@[w] as int,
                            ) && sampler.weights@[w] > 0;
                        assert(filter_matches(ArityFilter::Any, sampler.arities@[w] as int)
                            && sampler.weights@[w] > 0);
                    }
                }
                return Err(e);
            },
        }
    };
    proof {
        let i = choose|i: int|
            0 <= i < sampler.catalog_len() && sampler.ops_view()[i] == sym@ && sampler.weights@[i]
                > 0;
        lemma_unique_symbol_arity(*sampler, i);
    }
    let arity = match sampler.arity_of(&sym) {
        Ok(a) => a,
        Err(_) => {
            proof {
                assert(false);
            }
            return Err(GPError::EmptyCatalog);
        },
    };
    proof {
        if mind > 0 {
            assert(arity >= 1);
        }
        if mind == 0 && maxd == 0 {
            assert(arity == 0);
        }
    }
    arena.push(sym);
    let ghost mut bounds: Seq<int> = seq![n0 + 1];
    let mut k: usize = 0;
    while k < arity
        invariant
            sampler.parallel(),
            sampler.names_unique(),
            mind <= maxd,
            k <= arity,
            arity >= 1 ==> maxd >= 1,
            mind > 0 ==> arity >= 1,
            maxd == 0 ==> arity == 0,
            n0 == old(arena)@.len() as int,
            arena@.len() >= n0 + 1,
            arena@.subrange(0, n0) == old(arena)@,
            spec_label_arity(*sampler, arena_view(arena@)[n0]) == Some(arity as int),
            parse(tree_arities(*sampler, arena@), n0 + 1, k as int) == Some(arena@.len() as int),
            bounds.len() == k + 1,
            bounds[0] == n0 + 1,
            bounds[k as int] == arena@.len() as int,
            forall|x: int|
                0 <= x < k ==> parse(tree_arities(*sampler, arena@), #[trigger] bounds[x], 1)
                    == Some(bounds[x + 1]),
            forall|x: int| 0 <= x <= k ==> n0 + 1 <= #[trigger] bounds[x] <= arena@.len(),
            forall|x: int|
                0 <= x < k ==> grow_shape(
                    tree_arities(*sampler, arena@),
                    #[trigger] bounds[x],
                    mind as int - 1,
                    maxd as int - 1,
                ),
            forall|j: int|
                n0 <= j < arena@.len() ==> #[trigger] spec_label_arity(
                    *sampler,
                    arena_view(arena@)[j],
                ) is Some,
            forall|j: int|
                n0 <= j < arena@.len() ==> sampler.spec_arity_of(
                    #[trigger] arena_view(arena@)[j],
                ) is Some,
        decreases arity - k,
    {
        let m2: usize = if mind > 0 {
            mind - 1
        } else {
            0
        };
        let ghost a_old = arena@;
        let ghost la_old = tree_arities(*sampler, a_old);
        let ghost lb = arena@.len() as int;
        match grow_arena(rng, sampler, m2, maxd - 1, arena) {
            Ok(()) => {},
            Err(e) => {
                return Err(e);
            },
        }
        proof {
            let la_new = tree_arities(*sampler, arena@);
            assert forall|j: int| 0 <= j < lb implies arena@[j] == a_old[j] by {
                assert(arena@.subrange(0, lb)[j] == arena@[j]);
            }
            assert forall|j: int| 0 <= j < lb implies #[trigger] la_new[j] == la_old[j] by {
                assert(arena_view(arena@)[j] == arena_view(a_old)[j]);
            }
            assert forall|j: int|
                0 <= j < lb implies #[trigger] arena_view(arena@)[j] == arena_view(a_old)[j] by {
                assert(arena@[j] == a_old[j]);
            }
            lemma_tree_arities_nonneg(*sampler, a_old);
            lemma_parse_frame(la_old, la_new, n0 + 1, k as int, lb);
            lemma_parse_compose(la_new, n0 + 1, k as int, 1);
            // The prefix below this call's base is also still the same.
            assert(arena@.subrange(0, n0) =~= old(arena)@);
            // Earlier siblings keep their spans and their shapes: their
            // entries did not move.
            assert forall|x: int|
                0 <= x < k implies parse(la_new, #[trigger] bounds[x], 1) == Some(bounds[x + 1])
                && grow_shape(la_new, bounds[x], mind as int - 1, maxd as int - 1) by {
                lemma_parse_count(la_old, bounds[x], 1);
                lemma_parse_frame(la_old, la_new, bounds[x], 1, bounds[x + 1]);
                lemma_grow_shape_frame(
                    la_old,
                    la_new,
                    bounds[x],
                    bounds[x + 1],
                    mind as int - 1,
                    maxd as int - 1,
                );
            }
            // The fresh sibling's shape, loosened to the band the parent
            // owes its children.
            lemma_grow_shape_mono(la_new, lb, mind as int - 1, m2 as int, maxd as int - 1);
            bounds = bounds.push(arena@.len() as int);
        }
        k = k + 1;
    }
    proof {
        let la = tree_arities(*sampler, arena@);
        assert(la[n0] == arity as int);
        assert(parse(la, n0, 1) == parse(la, n0 + 1, la[n0]));
        if maxd == 0 {
            assert(grow_shape(la, n0, mind as int, maxd as int));
        } else {
            assert forall|x: int| 0 <= x < la[n0] implies grow_shape(
                la,
                #[trigger] kth_child(la, n0, x),
                mind as int - 1,
                maxd as int - 1,
            ) by {
                lemma_bounds_are_children(la, n0, bounds, x);
                assert(grow_shape(la, bounds[x], mind as int - 1, maxd as int - 1));
            }
            assert(grow_shape(la, n0, mind as int, maxd as int));
        }
    }
    Ok(())
}

/// The Grow initializer: node type is forced to a function above
/// `min_depth`, forced to a terminal at `max_depth`, and drawn from the
/// whole catalog in between.
pub struct Grow {
    pub min_depth: usize,
    pub max_depth: usize,
}

impl Grow {
    /// Validates and stores the depth band; fails with `InvalidDepthRange`,
    /// and only with it, when the minimum exceeds the maximum.
    pub fn new(min_depth: usize, max_depth: usize) -> (r: Result<Self, GPError>)
        ensures
            match r {
                Ok(g) => min_depth <= max_depth && g.min_depth == min_depth && g.max_depth
                    == max_depth,
                Err(e) => e == GPError::InvalidDepthRange && min_depth > max_depth,
            },
    {
        if min_depth > max_depth {
            return Err(GPError::InvalidDepthRange);
        }
        Ok(Grow { min_depth, max_depth })
    }

    /// The lower end of the depth band.
    pub fn min_depth(&self) -> (r: usize)
        ensures
            r == self.min_depth,
    {
        self.min_depth
    }

    /// The upper end of the depth band.
    pub fn max_depth(&self) -> (r: usize)
        ensures
            r == self.max_depth,
    {
        self.max_depth
    }

    /// Builds one fresh genotype. The result is well-formed, every label
    /// a catalog symbol consistent with its node's arity, and the whole
    /// tree shaped to the band: every node above `min_depth` is a function
    /// node and every node at `max_depth` is a terminal. Failure happens
    /// only for want of symbols: never when the catalog offers both a
    /// terminal and a function symbol of positive weight.
    pub fn initialize<R: Rng>(&self, rng: &mut R, sampler: &OperatorSampler) -> (r: Result<
        TreeGenotype,
        GPError,
    >)
        requires
            self.min_depth <= self.max_depth,
            sampler.parallel(),
            sampler.names_unique(),
        ensures
            match r {
                Ok(t) => {
                    &&& t.well_formed()
                    &&& t.arity_consistent(*sampler)
                    &&& t.size() >= 1
                    &&& grow_shape(
                        t.counts(),
                        0,
                        self.min_depth as int,
                        self.max_depth as int,
                    )
                    &&& forall|j: int|
                        0 <= j < t.size() ==> sampler.spec_arity_of(
                            #[trigger] t.spec_arena()[j],
                        ) is Some
                },
                Err(e) => {
                    &&& (e == GPError::EmptyCatalog || e == GPError::NoMatchingArity)
                    &&& !(sampler.has_weighted(ArityFilter::Exactly(0)) && sampler.has_weighted(
                        ArityFilter::Function,
                    ))
                },
            },
    {
        initialize_with_band(rng, sampler, self.min_depth, self.max_depth)
    }
}

/// The Full initializer: a function symbol at every level below `depth`, a
/// terminal at exactly `depth`, giving a complete tree of uniform depth.
pub struct Full {
    pub depth: usize,
}

impl Full {
    /// Stores the target depth; every depth is admissible.
    pub fn new(depth: usize) -> (r: Self)
        ensures
            r.depth == depth,
    {
        Full { depth }
    }

    /// The uniform depth grown to.
    pub fn depth(&self) -> (r: usize)
        ensures
            r == self.depth,
    {
        self.depth
    }

    /// Builds one fresh genotype whose every leaf sits at exactly the
    /// target depth: function symbols strictly above it, terminals there,
    /// all drawn from the catalog. Same failure modes as
    /// [`Grow::initialize`].
    pub fn initialize<R: Rng>(&self, rng: &mut R, sampler: &OperatorSampler) -> (r: Result<
        TreeGenotype,
        GPError,
    >)
        requires
            sampler.parallel(),
            sampler.names_unique(),
        ensures
            match r {
                Ok(t) => {
                    &&& t.well_formed()
                    &&& t.arity_consistent(*sampler)
                    &&& t.size() >= 1
                    &&& full_shape(t.counts(), 0, self.depth as int)
                    &&& forall|j: int|
                        0 <= j < t.size() ==> sampler.spec_arity_of(
                            #[trigger] t.spec_arena()[j],
                        ) is Some
                },
                Err(e) => {
                    &&& (e == GPError::EmptyCatalog || e == GPError::NoMatchingArity)
                    &&& !(sampler.has_weighted(ArityFilter::Exactly(0)) && sampler.has_weighted(
                        ArityFilter::Function,
                    ))
                },
            },
    {
        match initialize_with_band(rng, sampler, self.depth, self.depth) {
            Ok(t) => {
                proof {
                    lemma_grow_shape_full(t.counts(), 0, self.depth as int);
                }
                Ok(t)
            },
            Err(e) => Err(e),
        }
    }
}

/// Shared by both initializers: grow one tree within the band, then derive
/// its children relation, which cannot fail on a freshly grown arena.
pub(crate) fn initialize_with_band<R: Rng>(
    rng: &mut R,
    sampler: &OperatorSampler,
    mind: usize,
    maxd: usize,
) -> (r: Result<TreeGenotype, GPError>)
    requires
        sampler.parallel(),
        sampler.names_unique(),
        mind <= maxd,
    ensures
        match r {
            Ok(t) => {
                &&& t.well_formed()
                &&& t.arity_consistent(*sampler)
                &&& t.size() >= 1
                &&& grow_shape(t.counts(), 0, mind as int, maxd as int)
                &&& forall|j: int|
                    0 <= j < t.size() ==> sampler.spec_arity_of(
                        #[trigger] t.spec_arena()[j],
                    ) is Some
            },
            Err(e) => {
                &&& (e == GPError::EmptyCatalog || e == GPError::NoMatchingArity)
                &&& !(sampler.has_weighted(ArityFilter::Exactly(0)) && sampler.has_weighted(
                    ArityFilter::Function,
                ))
            },
        },
{
    let mut arena: Vec<String> = Vec::new();
    match grow_arena(rng, sampler, mind, maxd, &mut arena) {
        Ok(()) => {},
        Err(e) => {
            return Err(e);
        },
    }
    proof {
        assert(valid_arities(tree_arities(*sampler, arena@)));
        assert(labels_known(*sampler, arena_view(arena@)));
    }
    let mut t = TreeGenotype::with_arena(arena);
    match t.rebuild_children_from_arena(sampler) {
        Ok(()) => Ok(t),
        Err(_) => {
            proof {
                assert(false);
            }
            Err(GPError::EmptyCatalog)
        },
    }
}

} // verus!
