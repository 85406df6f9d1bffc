//! Mutation operators: transforming one genotype into a fresh one.
//!
//! Each operator is configured once, with an application probability as a
//! fraction of [`PROB_ONE`] and its own parameters, validated eagerly at
//! construction; each call first flips the application coin, and with the
//! complementary probability the input passes through unchanged.

use vstd::prelude::*;

use crate::crossover::build_child;
use crate::errors::GPError;
use crate::init::initialize_with_band;
use crate::literal::{encode_literal, decode_literal, parse_literal};
use crate::rng::{coin, rand_index, Rng, PROB_ONE};
use crate::sampler::{ArityFilter, OperatorSampler};
use crate::sampler::lemma_unique_symbol_arity;
use crate::shape::{grow_shape, nonneg, parse, sum_range, valid_arities};
use crate::shape::{lemma_subtree_exists, lemma_sum_nonneg, lemma_sum_unfold_right};
use vstd::arithmetic::div_mod::lemma_fundamental_div_mod;
use vstd::arithmetic::power2::{pow2, lemma_pow2_unfold, lemma2_to64};
use crate::tree::{spec_label_arity, tree_arities, TreeGenotype};
use crate::tree::{lemma_rebuild_round_trip, lemma_root_spans_tree};

verus! {

/// The child carries the parent's arena with the subtree span at `i`
/// replaced: the prefix up to `i`, then some complete tree whose depth
/// stays within `[mind, maxd]` of the cut, then the suffix after the
/// span.
pub open spec fn replaced_at(
    p: TreeGenotype,
    c: TreeGenotype,
    s: OperatorSampler,
    i: int,
    mind: int,
    maxd: int,
) -> bool {
    exists|e: int, seg: Seq<String>|
        #![trigger p.arena@.subrange(e, p.size() as int), tree_arities(s, seg)]
        {
            &&& parse(p.counts(), i, 1) == Some(e)
            &&& c.arena@ == p.arena@.subrange(0, i) + seg + p.arena@.subrange(e, p.size() as int)
            &&& valid_arities(tree_arities(s, seg))
            &&& grow_shape(tree_arities(s, seg), 0, mind, maxd)
        }
}

/// Some cut witnesses the replacement: one subtree span of the parent was
/// exchanged for a fresh depth-banded tree.
pub open spec fn subtree_replaced_within(
    p: TreeGenotype,
    c: TreeGenotype,
    s: OperatorSampler,
    mind: int,
    maxd: int,
) -> bool {
    exists|i: int| 0 <= i < p.size() && #[trigger] replaced_at(p, c, s, i, mind, maxd)
}

/// The replacement depth bound the size-fair mutation owes: the fixed
/// depth when the dynamic limit is off, the floored base-two logarithm of
/// the removed span's length when it is on.
pub open spec fn size_fair_bound(dynamic_limit: bool, removed: int) -> int {
    if dynamic_limit {
        spec_floor_log2(removed)
    } else {
        SIZE_FAIR_FIXED_DEPTH as int
    }
}

/// The child carries the parent's arena with one subtree span replaced by
/// a fresh complete tree no deeper than the bound derived from that very
/// span's length.
pub open spec fn subtree_replaced_size_fair(
    p: TreeGenotype,
    c: TreeGenotype,
    s: OperatorSampler,
    dynamic_limit: bool,
) -> bool {
    exists|i: int, e: int, seg: Seq<String>|
        #![trigger p.arena@.subrange(0, i), p.arena@.subrange(e, p.size() as int), tree_arities(s, seg)]
        {
            &&& 0 <= i < p.size()
            &&& parse(p.counts(), i, 1) == Some(e)
            &&& c.arena@ == p.arena@.subrange(0, i) + seg + p.arena@.subrange(e, p.size() as int)
            &&& valid_arities(tree_arities(s, seg))
            &&& grow_shape(tree_arities(s, seg), 0, 0, size_fair_bound(dynamic_limit, e - i))
        }
}

/// Floor of the base-two logarithm; values below two map to zero.
pub open spec fn spec_floor_log2(v: int) -> int
    decreases v,
{
    if v <= 1 {
        0
    } else {
        1 + spec_floor_log2(v / 2)
    }
}

proof fn lemma_log2_nonneg(v: int)
    ensures
        spec_floor_log2(v) >= 0,
    decreases v,
{
    if v >= 2 {
        lemma_log2_nonneg(v / 2);
    }
}

/// Below a power of two, the floored logarithm stays below its exponent.
proof fn lemma_log2_below(v: int, b: nat)
    requires
        b >= 1,
        0 <= v < pow2(b),
    ensures
        spec_floor_log2(v) < b,
    decreases b,
{
    if v >= 2 {
        lemma_pow2_unfold(b);
        lemma_fundamental_div_mod(v, 2);
        assert(v / 2 < pow2((b - 1) as nat));
        assert(b >= 2) by {
            if b == 1 {
                lemma2_to64();
            }
        }
        lemma_log2_below(v / 2, (b - 1) as nat);
    }
}

/// Subtree mutation: one uniformly drawn subtree is replaced by a freshly
/// grown one, bounded by the configured depth band relative to the mutation
/// point.
pub struct SubtreeMutation {
    pub probability: u32,
    pub min_depth: usize,
    pub max_depth: usize,
}

impl SubtreeMutation {
    /// Validates the probability first, then the depth band; fails with
    /// `InvalidProbability` when the probability exceeds [`PROB_ONE`], and
    /// with `InvalidDepthRange` when the band's minimum exceeds its
    /// maximum.
    pub fn new(probability: u32, depth_limits: (usize, usize)) -> (r: Result<Self, GPError>)
        ensures
            match r {
                Ok(m) => {
                    &&& probability <= PROB_ONE
                    &&& depth_limits.0 <= depth_limits.1
                    &&& m.probability == probability
                    &&& m.min_depth == depth_limits.0
                    &&& m.max_depth == depth_limits.1
                },
                Err(e) => {
                    &&& (e == GPError::InvalidProbability <==> probability > PROB_ONE)
                    &&& (e == GPError::InvalidDepthRange <==> (probability <= PROB_ONE
                        && depth_limits.0 > depth_limits.1))
                    &&& (e == GPError::InvalidProbability || e == GPError::InvalidDepthRange)
                },
            },
    {
        if probability > PROB_ONE {
            return Err(GPError::InvalidProbability);
        }
        if depth_limits.0 > depth_limits.1 {
            return Err(GPError::InvalidDepthRange);
        }
        Ok(SubtreeMutation { probability, min_depth: depth_limits.0, max_depth: depth_limits.1 })
    }

    /// The mutation that always applies, growing replacements of depth one
    /// to two.
    pub fn default() -> (r: Self)
        ensures
            r.probability == PROB_ONE,
            r.min_depth == 1,
            r.max_depth == 2,
    {
        SubtreeMutation { probability: PROB_ONE, min_depth: 1, max_depth: 2 }
    }

    /// The stored application probability.
    pub fn probability(&self) -> (r: u32)
        ensures
            r == self.probability,
    {
        self.probability
    }

    /// The stored depth band for replacements.
    pub fn depth_limits(&self) -> (r: (usize, usize))
        ensures
            r.0 == self.min_depth,
            r.1 == self.max_depth,
    {
        (self.min_depth, self.max_depth)
    }

    /// Mutates one genotype: with the complementary probability a
    /// structurally identical copy comes back; otherwise one uniformly
    /// drawn subtree is replaced by a fresh one grown within the band. The
    /// result is always well-formed and arity-consistent; failure happens
    /// only for want of symbols, never when the catalog offers both a
    /// terminal and a function symbol of positive weight.
    pub fn variate<R: Rng>(
        &self,
        rng: &mut R,
        individual: &TreeGenotype,
        sampler: &OperatorSampler,
    ) -> (r: Result<TreeGenotype, GPError>)
        requires
            self.probability <= PROB_ONE,
            self.min_depth <= self.max_depth,
            sampler.parallel(),
            sampler.names_unique(),
            individual.well_formed(),
            individual.arity_consistent(*sampler),
        ensures
            match r {
                Ok(t) => {
                    &&& t.well_formed()
                    &&& t.arity_consistent(*sampler)
                    &&& (subtree_replaced_within(
                        *individual,
                        t,
                        *sampler,
                        self.min_depth as int,
                        self.max_depth as int,
                    ) || (t.spec_arena() == individual.spec_arena() && t.spec_children()
                        == individual.spec_children()))
                    &&& (self.probability == PROB_ONE ==> subtree_replaced_within(
                        *individual,
                        t,
                        *sampler,
                        self.min_depth as int,
                        self.max_depth as int,
                    ))
                    &&& (self.probability == 0 ==> t.spec_arena() == individual.spec_arena()
                        && t.spec_children() == individual.spec_children())
                },
                Err(e) => {
                    &&& (e == GPError::EmptyCatalog || e == GPError::NoMatchingArity)
                    &&& !(sampler.has_weighted(ArityFilter::Exactly(0)) && sampler.has_weighted(
                        ArityFilter::Function,
                    ))
                    &&& self.probability != 0
                },
            },
    {
        if !coin(rng, self.probability) {
            return Ok(individual.duplicate());
        }
        mutate_subtree_weighted(rng, individual, sampler, None, self.min_depth, self.max_depth)
    }
}

/// Size-fair mutation: like subtree mutation, but the mutation point is
/// drawn with probability proportional to its subtree's size, so large
/// subtrees are replaced more often, countering unbounded growth; with the
/// dynamic limit the replacement's depth bound is derived from the removed
/// subtree's size instead of a fixed bound.
pub struct SizeFairMutation {
    pub probability: u32,
    pub dynamic_limit: bool,
}

/// The fixed replacement depth bound used when the dynamic limit is off.
pub const SIZE_FAIR_FIXED_DEPTH: usize = 2;

impl SizeFairMutation {
    /// Validates and stores the application probability; fails with
    /// `InvalidProbability`, and only with it, when it exceeds
    /// [`PROB_ONE`].
    pub fn new(probability: u32, dynamic_limit: bool) -> (r: Result<Self, GPError>)
        ensures
            match r {
                Ok(m) => {
                    &&& probability <= PROB_ONE
                    &&& m.probability == probability
                    &&& m.dynamic_limit == dynamic_limit
                },
                Err(e) => e == GPError::InvalidProbability && probability > PROB_ONE,
            },
    {
        if probability > PROB_ONE {
            return Err(GPError::InvalidProbability);
        }
        Ok(SizeFairMutation { probability, dynamic_limit })
    }

    /// The mutation that always applies, with the dynamic limit on.
    pub fn default() -> (r: Self)
        ensures
            r.probability == PROB_ONE,
            r.dynamic_limit,
    {
        SizeFairMutation { probability: PROB_ONE, dynamic_limit: true }
    }

    /// The stored application probability.
    pub fn probability(&self) -> (r: u32)
        ensures
            r == self.probability,
    {
        self.probability
    }

    /// Mutates one genotype, drawing the mutation point with probability
    /// proportional to subtree size. With the dynamic limit the
    /// replacement may grow to the floored base-two logarithm of the
    /// removed subtree's size, the depth of a balanced binary tree of that
    /// size; otherwise to [`SIZE_FAIR_FIXED_DEPTH`]. Guarantees and
    /// failure modes are those of [`SubtreeMutation::variate`].
    pub fn variate<R: Rng>(
        &self,
        rng: &mut R,
        individual: &TreeGenotype,
        sampler: &OperatorSampler,
    ) -> (r: Result<TreeGenotype, GPError>)
        requires
            self.probability <= PROB_ONE,
            sampler.parallel(),
            sampler.names_unique(),
            individual.well_formed(),
            individual.arity_consistent(*sampler),
        ensures
            match r {
                Ok(t) => {
                    &&& t.well_formed()
                    &&& t.arity_consistent(*sampler)
                    &&& (subtree_replaced_size_fair(*individual, t, *sampler, self.dynamic_limit)
                        || (t.spec_arena() == individual.spec_arena() && t.spec_children()
                        == individual.spec_children()))
                    &&& (self.probability == PROB_ONE ==> subtree_replaced_size_fair(
                        *individual,
                        t,
                        *sampler,
                        self.dynamic_limit,
                    ))
                    &&& (self.probability == 0 ==> t.spec_arena() == individual.spec_arena()
                        && t.spec_children() == individual.spec_children())
                },
                Err(e) => {
                    &&& (e == GPError::EmptyCatalog || e == GPError::NoMatchingArity)
                    &&& !(sampler.has_weighted(ArityFilter::Exactly(0)) && sampler.has_weighted(
                        ArityFilter::Function,
                    ))
                    &&& self.probability != 0
                },
            },
    {
        if !coin(rng, self.probability) {
            return Ok(individual.duplicate());
        }
        // Draw the point weighted by subtree size, then derive the depth
        // bound for the replacement.
        let n = individual.arena.len();
        proof {
            lemma_root_spans_tree(*individual);
        }
        let mut sizes: Vec<u64> = Vec::new();
        let mut i: usize = 0;
        while i < n
            invariant
                individual.well_formed(),
                n == individual.size(),
                i <= n,
                sizes@.len() == i,
                forall|j: int| 0 <= j < i ==> #[trigger] sizes@[j] >= 1,
            decreases n - i,
        {
            let sz = match individual.subtree_size(i) {
                Ok(v) => v,
                Err(_) => {
                    proof {
                        assert(false);
                    }
                    return Err(GPError::IndexOutOfBounds);
                },
            };
            sizes.push(sz as u64);
            i = i + 1;
        }
        let idx = weighted_position(rng, &sizes);
        let removed = match individual.subtree_size(idx) {
            Ok(v) => v,
            Err(_) => {
                proof {
                    assert(false);
                }
                return Err(GPError::IndexOutOfBounds);
            },
        };
        let maxd: usize = if self.dynamic_limit {
            floor_log2(removed as u64)
        } else {
            SIZE_FAIR_FIXED_DEPTH
        };
        match mutate_subtree_weighted(rng, individual, sampler, Some(idx), 0, maxd) {
            Ok(t) => {
                proof {
                    // The cut is the drawn index; its span end is pinned by
                    // the scan, so the bound used is exactly the one the
                    // removed span's length owes.
                    assert(replaced_at(*individual, t, *sampler, idx as int, 0, maxd as int));
                    let (e, seg) = choose|e: int, seg: Seq<String>|
                        {
                            &&& parse(individual.counts(), idx as int, 1) == Some(e)
                            &&& t.arena@ == individual.arena@.subrange(0, idx as int) + seg
                                + individual.arena@.subrange(e, individual.size() as int)
                            &&& valid_arities(tree_arities(*sampler, seg))
                            &&& grow_shape(tree_arities(*sampler, seg), 0, 0, maxd as int)
                        };
                    assert(e == idx + removed);
                    assert(size_fair_bound(self.dynamic_limit, e - idx) == maxd as int);
                    assert(individual.arena@.subrange(0, idx as int)
                        == individual.arena@.subrange(0, idx as int));
                    assert(individual.arena@.subrange(e, individual.size() as int)
                        == individual.arena@.subrange(e, individual.size() as int));
                    assert(tree_arities(*sampler, seg) == tree_arities(*sampler, seg));
                    assert(subtree_replaced_size_fair(
                        *individual,
                        t,
                        *sampler,
                        self.dynamic_limit,
                    ));
                }
                Ok(t)
            },
            Err(e) => Err(e),
        }
    }
}

/// Floor of the base-two logarithm; values below two map to zero.
fn floor_log2(v: u64) -> (r: usize)
    ensures
        r as int == spec_floor_log2(v as int),
        r < 64,
{
    proof {
        lemma2_to64();
        lemma_log2_below(v as int, 64);
        lemma_log2_nonneg(v as int);
    }
    let mut x = v;
    let mut d: usize = 0;
    while x > 1
        invariant
            spec_floor_log2(v as int) == d + spec_floor_log2(x as int),
            d <= spec_floor_log2(v as int),
            spec_floor_log2(v as int) < 64,
        decreases x,
    {
        proof {
            assert(x / 2 < x) by (nonlinear_arith)
                requires
                    x > 1,
            ;
            assert(spec_floor_log2(x as int) == 1 + spec_floor_log2(x as int / 2));
            lemma_log2_nonneg(x as int / 2);
        }
        x = x / 2;
        d = d + 1;
    }
    d
}

/// Draws a position with probability proportional to its entry; every
/// entry is positive, so a position always comes back.
fn weighted_position<R: Rng>(rng: &mut R, ws: &Vec<u64>) -> (r: usize)
    requires
        ws@.len() >= 1,
        forall|j: int| 0 <= j < ws@.len() ==> #[trigger] ws@[j] >= 1,
    ensures
        r < ws@.len(),
{
    let ghost ms = Seq::new(ws@.len(), |j: int| ws@[j] as int);
    let n = ws.len();
    let mut total: u128 = 0;
    let mut i: usize = 0;
    while i < n
        invariant
            n == ws@.len(),
            ms == Seq::new(ws@.len(), |j: int| ws@[j] as int),
            i <= n,
            total as int == sum_range(ms, 0, i as int),
            total as int <= (i as int) * (u64::MAX as int),
        decreases n - i,
    {
        proof {
            lemma_sum_unfold_right(ms, 0, i as int);
        }
        total = total + (ws[i] as u128);
        i = i + 1;
    }
    proof {
        assert(nonneg(ms));
        assert(sum_range(ms, 0, 1) == ms[0] + sum_range(ms, 1, 1));
        lemma_sum_nonneg(ms, 1, n as int);
        assert(sum_range(ms, 0, n as int) == sum_range(ms, 0, 1) + sum_range(ms, 1, n as int)) by {
            crate::shape::lemma_sum_split(ms, 0, 1, n as int);
        }
        assert(total >= 1);
    }
    let draw = (rng.next_u64() as u128) % total;
    let mut acc: u128 = 0;
    let mut j: usize = 0;
    while j < n
        invariant
            n == ws@.len(),
            ms == Seq::new(ws@.len(), |x: int| ws@[x] as int),
            j <= n,
            acc as int == sum_range(ms, 0, j as int),
            acc as int <= (j as int) * (u64::MAX as int),
            (draw as int) >= acc as int,
            (draw as int) < sum_range(ms, 0, n as int),
        decreases n - j,
    {
        proof {
            lemma_sum_unfold_right(ms, 0, j as int);
        }
        let w = ws[j];
        if draw < acc + (w as u128) {
            return j;
        }
        acc = acc + (w as u128);
        j = j + 1;
    }
    proof {
        assert(false);
    }
    0
}

/// Replaces the subtree at `at` (or at a uniformly drawn index) by a fresh
/// one grown within `[mind, maxd]`.
fn mutate_subtree_weighted<R: Rng>(
    rng: &mut R,
    individual: &TreeGenotype,
    sampler: &OperatorSampler,
    at: Option<usize>,
    mind: usize,
    maxd: usize,
) -> (r: Result<TreeGenotype, GPError>)
    requires
        sampler.parallel(),
        sampler.names_unique(),
        individual.well_formed(),
        individual.arity_consistent(*sampler),
        mind <= maxd,
        at matches Some(i) ==> i < individual.size(),
    ensures
        match r {
            Ok(t) => t.well_formed() && t.arity_consistent(*sampler) && subtree_replaced_within(
                *individual,
                t,
                *sampler,
                mind as int,
                maxd as int,
            ) && (at matches Some(i0) ==> replaced_at(
                *individual,
                t,
                *sampler,
                i0 as int,
                mind as int,
                maxd as int,
            )),
            Err(e) => {
                &&& (e == GPError::EmptyCatalog || e == GPError::NoMatchingArity)
                &&& !(sampler.has_weighted(ArityFilter::Exactly(0)) && sampler.has_weighted(
                    ArityFilter::Function,
                ))
            },
        },
{
    proof {
        lemma_root_spans_tree(*individual);
    }
    let idx = match at {
        Some(i) => i,
        None => rand_index(rng, individual.arena.len()),
    };
    let sz = match individual.subtree_size(idx) {
        Ok(v) => v,
        Err(_) => {
            proof {
                assert(false);
            }
            return Err(GPError::IndexOutOfBounds);
        },
    };
    let replacement = match initialize_with_band(rng, sampler, mind, maxd) {
        Ok(t) => t,
        Err(e) => {
            return Err(e);
        },
    };
    proof {
        assert(nonneg(individual.counts()));
        lemma_subtree_exists(individual.counts(), idx as int);
        assert(nonneg(replacement.counts()));
        assert(parse(replacement.counts(), 0, 1) == Some(replacement.size() as int));
    }
    let child = build_child(
        individual,
        idx,
        sz,
        &replacement,
        0,
        replacement.arena.len(),
        sampler,
    );
    proof {
        // The cut span, the fresh segment and the surviving prefix and
        // suffix witness the replacement.
        lemma_rebuild_round_trip(replacement, *sampler);
        let seg = replacement.arena@;
        assert(replacement.arena@.subrange(0, replacement.arena@.len() as int) =~= seg);
        assert(child.arena@ == individual.arena@.subrange(0, idx as int) + seg
            + individual.arena@.subrange(idx + sz, individual.size() as int));
        assert(tree_arities(*sampler, seg) == replacement.counts());
        assert(valid_arities(tree_arities(*sampler, seg)));
        assert(grow_shape(tree_arities(*sampler, seg), 0, mind as int, maxd as int));
        assert(parse(individual.counts(), idx as int, 1) == Some(idx + sz));
        assert(replaced_at(*individual, child, *sampler, idx as int, mind as int, maxd as int));
        assert(subtree_replaced_within(*individual, child, *sampler, mind as int, maxd as int));
    }
    Ok(child)
}

/// Point mutation: each node, independently with the configured
/// probability, has its label redrawn among the catalog symbols of the
/// same arity; tree shape is never touched, and a node whose arity has no
/// positive-weight symbol is left as it is.
pub struct PointMutation {
    pub probability: u32,
}

impl PointMutation {
    /// Validates and stores the per-node application probability; fails
    /// with `InvalidProbability`, and only with it, when it exceeds
    /// [`PROB_ONE`].
    pub fn new(probability: u32) -> (r: Result<Self, GPError>)
        ensures
            match r {
                Ok(m) => probability <= PROB_ONE && m.probability == probability,
                Err(e) => e == GPError::InvalidProbability && probability > PROB_ONE,
            },
    {
        if probability > PROB_ONE {
            return Err(GPError::InvalidProbability);
        }
        Ok(PointMutation { probability })
    }

    /// The mutation that redraws every node's label.
    pub fn default() -> (r: Self)
        ensures
            r.probability == PROB_ONE,
    {
        PointMutation { probability: PROB_ONE }
    }

    /// The stored per-node application probability.
    pub fn probability(&self) -> (r: u32)
        ensures
            r == self.probability,
    {
        self.probability
    }

    /// Mutates labels only: whatever the input and the draws, the arena
    /// length and the whole children relation are unchanged, so
    /// well-formedness is preserved exactly; every label either stays or
    /// becomes a positive-weight catalog symbol of the node's own arity,
    /// so arity-consistency is preserved too. With probability zero the
    /// labels are also unchanged; with full probability every node whose
    /// arity some positive-weight symbol carries is redrawn to such a
    /// symbol.
    pub fn variate<R: Rng>(
        &self,
        rng: &mut R,
        individual: &TreeGenotype,
        sampler: &OperatorSampler,
    ) -> (r: TreeGenotype)
        requires
            self.probability <= PROB_ONE,
            sampler.parallel(),
            sampler.names_unique(),
        ensures
            r.arena@.len() == individual.arena@.len(),
            r.spec_children() == individual.spec_children(),
            r.children@.len() == individual.children@.len(),
            r.counts() == individual.counts(),
            r.well_formed() == individual.well_formed(),
            individual.arity_consistent(*sampler) ==> r.arity_consistent(*sampler),
            forall|j: int|
                0 <= j < r.arena@.len() ==> #[trigger] r.arena@[j] == individual.arena@[j] || (j
                    < individual.children@.len() && sampler.has_entry(
                    r.arena@[j]@,
                    ArityFilter::Exactly(individual.children@[j]@.len() as usize),
                )),
            self.probability == PROB_ONE ==> forall|j: int|
                0 <= j < r.arena@.len() && j < individual.children@.len() && sampler.has_weighted(
                    ArityFilter::Exactly(individual.children@[j]@.len() as usize),
                ) ==> sampler.has_entry(
                    #[trigger] r.arena@[j]@,
                    ArityFilter::Exactly(individual.children@[j]@.len() as usize),
                ),
            self.probability == 0 ==> r.spec_arena() == individual.spec_arena(),
    {
        let mut t = individual.duplicate();
        let n = t.arena.len();
        let ghost t0 = t;
        let mut i: usize = 0;
        while i < n
            invariant
                self.probability <= PROB_ONE,
                sampler.parallel(),
                sampler.names_unique(),
                n == t.arena@.len(),
                n == individual.arena@.len(),
                i <= n,
                t.children@ == t0.children@,
                t0.spec_children() == individual.spec_children(),
                t0.counts() == individual.counts(),
                t0.children@.len() == individual.children@.len(),
                t0.well_formed() == individual.well_formed(),
                forall|s: OperatorSampler| #[trigger] t0.arity_consistent(s)
                    == individual.arity_consistent(s),
                forall|j: int| i <= j < n ==> #[trigger] t.arena@[j] == t0.arena@[j],
                forall|j: int|
                    0 <= j < i ==> #[trigger] t.arena@[j] == t0.arena@[j] || (j
                        < t.children@.len() && spec_label_arity(*sampler, t.arena@[j]@) == Some(
                        t.children@[j]@.len() as int,
                    ) && sampler.has_entry(
                        t.arena@[j]@,
                        ArityFilter::Exactly(t.children@[j]@.len() as usize),
                    )),
                self.probability == PROB_ONE ==> forall|j: int|
                    0 <= j < i && j < t.children@.len() && sampler.has_weighted(
                        ArityFilter::Exactly(t.children@[j]@.len() as usize),
                    ) ==> sampler.has_entry(
                        #[trigger] t.arena@[j]@,
                        ArityFilter::Exactly(t.children@[j]@.len() as usize),
                    ),
                self.probability == 0 ==> forall|j: int|
                    0 <= j < n ==> #[trigger] t.arena@[j] == t0.arena@[j],
                t0.arena@ == individual.arena@,
            decreases n - i,
        {
            if i < t.children.len() && coin(rng, self.probability) {
                let node_arity: usize = t.children[i].len();
                match sampler.sample_by_arity(rng, node_arity) {
                    Ok(sym) => {
                        proof {
                            let w = choose|w: int|
                                0 <= w < sampler.catalog_len() && sampler.ops_view()[w] == sym@
                                    && sampler.arities_view()[w] as int == node_arity as int
                                    && sampler.weights@[w] > 0;
                            lemma_unique_symbol_arity(*sampler, w);
                        }
                        t.arena.set(i, sym);
                    },
                    Err(_) => {},
                }
            }
            i = i + 1;
        }
        proof {
            assert(t.spec_children() =~= t0.spec_children());
            assert(t.counts() =~= t0.counts());
            assert forall|ii: int, k: int|
                0 <= ii < t.children@.len() && 0 <= k < t.counts()[ii] implies #[trigger] t
                .child_at(ii, k) == t0.child_at(ii, k) by {
                assert(t.children@[ii]@ == t0.children@[ii]@);
            }
            assert forall|ii: int, k: int|
                0 <= ii < t0.children@.len() && 0 <= k < t0.counts()[ii] implies #[trigger] t0
                .child_at(ii, k) == t.child_at(ii, k) by {
                assert(t.children@[ii]@ == t0.children@[ii]@);
            }
            if individual.arity_consistent(*sampler) {
                assert forall|j: int| 0 <= j < t.size() implies #[trigger] spec_label_arity(
                    *sampler,
                    t.spec_arena()[j],
                ) == Some(t.counts()[j]) by {
                    assert(t.spec_arena()[j] == t.arena@[j]@);
                    if t.arena@[j] == t0.arena@[j] {
                        assert(spec_label_arity(*sampler, t0.spec_arena()[j]) == Some(
                            t0.counts()[j],
                        ));
                        assert(t0.spec_arena()[j] == t0.arena@[j]@);
                    }
                }
            }
            assert forall|j: int|
                0 <= j < t.children@.len() implies #[trigger] t.children@[j]@
                == individual.children@[j]@ by {
                assert(t0.spec_children()[j] == individual.spec_children()[j]);
            }
            if self.probability == 0 {
                assert(t.spec_arena() =~= individual.spec_arena());
            }
        }
        t
    }
}

/// Constant mutation: each literal-bearing leaf, independently with the
/// configured probability, has its value perturbed by a uniformly drawn
/// offset of magnitude at most `mutation_rate`, then clamped into the
/// configured range when one is set. Non-literal nodes and tree shape are
/// never touched.
pub struct ConstantMutation {
    pub probability: u32,
    pub mutation_rate: i64,
    pub range_limits: Option<(i64, i64)>,
}

impl ConstantMutation {
    /// Validates the probability, then the rate, then the range; fails
    /// with `InvalidProbability` when the probability exceeds
    /// [`PROB_ONE`], with `InvalidMutationRate` when the rate is
    /// negative, and with `InvalidRange` when a range's lower bound
    /// exceeds its upper bound.
    pub fn new(probability: u32, mutation_rate: i64, range_limits: Option<(i64, i64)>) -> (r:
        Result<Self, GPError>)
        ensures
            match r {
                Ok(m) => {
                    &&& probability <= PROB_ONE
                    &&& mutation_rate >= 0
                    &&& (range_limits matches Some(p) ==> p.0 <= p.1)
                    &&& m.probability == probability
                    &&& m.mutation_rate == mutation_rate
                    &&& m.range_limits == range_limits
                },
                Err(e) => {
                    &&& (e == GPError::InvalidProbability <==> probability > PROB_ONE)
                    &&& (e == GPError::InvalidMutationRate <==> (probability <= PROB_ONE
                        && mutation_rate < 0))
                    &&& (e == GPError::InvalidRange <==> (probability <= PROB_ONE && mutation_rate
                        >= 0 && (range_limits matches Some(p) && p.0 > p.1)))
                    &&& (e == GPError::InvalidProbability || e == GPError::InvalidMutationRate || e
                        == GPError::InvalidRange)
                },
            },
    {
        if probability > PROB_ONE {
            return Err(GPError::InvalidProbability);
        }
        if mutation_rate < 0 {
            return Err(GPError::InvalidMutationRate);
        }
        match range_limits {
            Some(p) => {
                if p.0 > p.1 {
                    return Err(GPError::InvalidRange);
                }
            },
            None => {},
        }
        Ok(ConstantMutation { probability, mutation_rate, range_limits })
    }

    /// The mutation that always applies, with unit rate and no range.
    pub fn default() -> (r: Self)
        ensures
            r.probability == PROB_ONE,
            r.mutation_rate == 1,
            r.range_limits is None,
    {
        ConstantMutation { probability: PROB_ONE, mutation_rate: 1, range_limits: None }
    }

    /// The stored per-leaf application probability.
    pub fn probability(&self) -> (r: u32)
        ensures
            r == self.probability,
    {
        self.probability
    }

    /// Mutates literal leaves only: whatever the input and the draws, the
    /// arena length and the whole children relation are unchanged. Every
    /// label either stays as it was or is a literal childless leaf whose
    /// new value moved by at most the rate and, when a range is set, lies
    /// within it. With probability zero the labels are also unchanged;
    /// with full probability every literal childless leaf is perturbed
    /// so.
    pub fn variate<R: Rng>(&self, rng: &mut R, individual: &TreeGenotype) -> (r: TreeGenotype)
        requires
            self.probability <= PROB_ONE,
            self.mutation_rate >= 0,
            self.range_limits matches Some(p) ==> p.0 <= p.1,
        ensures
            r.arena@.len() == individual.arena@.len(),
            r.spec_children() == individual.spec_children(),
            r.children@.len() == individual.children@.len(),
            r.counts() == individual.counts(),
            r.well_formed() == individual.well_formed(),
            forall|j: int|
                0 <= j < r.arena@.len() ==> #[trigger] r.arena@[j] == individual.arena@[j] || (
                parse_literal(individual.arena@[j]@) is Some && parse_literal(r.arena@[j]@) is Some
                    && j < individual.children@.len() && individual.children@[j]@.len() == 0 && (
                self.range_limits matches Some(p) ==> p.0 as int <= parse_literal(r.arena@[j]@)->0
                    <= p.1 as int) && (self.range_limits is None ==> parse_literal(
                    individual.arena@[j]@,
                )->0 - self.mutation_rate <= parse_literal(r.arena@[j]@)->0 <= parse_literal(
                    individual.arena@[j]@,
                )->0 + self.mutation_rate)),
            self.probability == PROB_ONE ==> forall|j: int|
                0 <= j < r.arena@.len() && j < individual.children@.len()
                    && individual.children@[j]@.len() == 0 && parse_literal(
                    individual.arena@[j]@,
                ) is Some ==> (parse_literal(#[trigger] r.arena@[j]@) is Some && (
                self.range_limits matches Some(p) ==> p.0 as int <= parse_literal(r.arena@[j]@)->0
                    <= p.1 as int) && (self.range_limits is None ==> parse_literal(
                    individual.arena@[j]@,
                )->0 - self.mutation_rate <= parse_literal(r.arena@[j]@)->0 <= parse_literal(
                    individual.arena@[j]@,
                )->0 + self.mutation_rate)),
            self.probability == 0 ==> r.spec_arena() == individual.spec_arena(),
    {
        let mut t = individual.duplicate();
        let n = t.arena.len();
        let ghost t0 = t;
        let mut i: usize = 0;
        while i < n
            invariant
                self.probability <= PROB_ONE,
                self.mutation_rate >= 0,
                self.range_limits matches Some(p) ==> p.0 <= p.1,
                n == t.arena@.len(),
                n == individual.arena@.len(),
                i <= n,
                t.children@ == t0.children@,
                t0.spec_children() == individual.spec_children(),
                t0.counts() == individual.counts(),
                t0.children@.len() == individual.children@.len(),
                t0.well_formed() == individual.well_formed(),
                t0.arena@ == individual.arena@,
                forall|j: int| i <= j < n ==> #[trigger] t.arena@[j] == t0.arena@[j],
                forall|j: int|
                    0 <= j < i ==> #[trigger] t.arena@[j] == t0.arena@[j] || (parse_literal(
                    t0.arena@[j]@,
                ) is Some && parse_literal(t.arena@[j]@) is Some && j < t0.children@.len()
                    && t0.children@[j]@.len() == 0 && (self.range_limits matches Some(p) ==> p.0 as int
                    <= parse_literal(t.arena@[j]@)->0 <= p.1 as int) && (self.range_limits is None
                    ==> parse_literal(t0.arena@[j]@)->0 - self.mutation_rate <= parse_literal(
                    t.arena@[j]@,
                )->0 <= parse_literal(t0.arena@[j]@)->0 + self.mutation_rate)),
                self.probability == PROB_ONE ==> forall|j: int|
                    0 <= j < i && j < individual.children@.len()
                        && individual.children@[j]@.len() == 0 && parse_literal(
                        individual.arena@[j]@,
                    ) is Some ==> (parse_literal(#[trigger] t.arena@[j]@) is Some && (
                    self.range_limits matches Some(p) ==> p.0 as int <= parse_literal(
                        t.arena@[j]@,
                    )->0 <= p.1 as int) && (self.range_limits is None ==> parse_literal(
                        individual.arena@[j]@,
                    )->0 - self.mutation_rate <= parse_literal(t.arena@[j]@)->0 <= parse_literal(
                        individual.arena@[j]@,
                    )->0 + self.mutation_rate)),
                self.probability == 0 ==> forall|j: int|
                    0 <= j < n ==> #[trigger] t.arena@[j] == t0.arena@[j],
            decreases n - i,
        {
            proof {
                assert(t.children@.len() == individual.children@.len());
                if i < t.children@.len() {
                    assert(t.children@[i as int]@ == individual.children@[i as int]@) by {
                        assert(t0.spec_children()[i as int] == individual.spec_children()[
                            i as int
                        ]);
                    }
                }
                assert(t.arena@[i as int] == individual.arena@[i as int]);
            }
            let is_leaf: bool = if i < t.children.len() {
                t.children[i].len() == 0
            } else {
                false
            };
            if is_leaf {
                match decode_literal(&t.arena[i]) {
                    Some(v) => {
                        if coin(rng, self.probability) {
                            let mutated = self.perturb(rng, v);
                            let label = encode_literal(mutated);
                            t.arena.set(i, label);
                        }
                    },
                    None => {},
                }
            }
            i = i + 1;
        }
        proof {
            assert(t.spec_children() =~= t0.spec_children());
            assert(t.counts() =~= t0.counts());
            assert forall|ii: int, k: int|
                0 <= ii < t.children@.len() && 0 <= k < t.counts()[ii] implies #[trigger] t
                .child_at(ii, k) == t0.child_at(ii, k) by {
                assert(t.children@[ii]@ == t0.children@[ii]@);
            }
            assert forall|ii: int, k: int|
                0 <= ii < t0.children@.len() && 0 <= k < t0.counts()[ii] implies #[trigger] t0
                .child_at(ii, k) == t.child_at(ii, k) by {
                assert(t.children@[ii]@ == t0.children@[ii]@);
            }
            assert forall|j: int|
                0 <= j < n implies #[trigger] t.arena@[j] == individual.arena@[j] || (
            parse_literal(individual.arena@[j]@) is Some && parse_literal(t.arena@[j]@) is Some
                && j < individual.children@.len() && individual.children@[j]@.len() == 0 && (
            self.range_limits matches Some(p) ==> p.0 as int <= parse_literal(t.arena@[j]@)->0
                <= p.1 as int) && (self.range_limits is None ==> parse_literal(
                individual.arena@[j]@,
            )->0 - self.mutation_rate <= parse_literal(t.arena@[j]@)->0 <= parse_literal(
                individual.arena@[j]@,
            )->0 + self.mutation_rate)) by {
                assert(t0.arena@[j] == individual.arena@[j]);
                if t.arena@[j] != t0.arena@[j] {
                    assert(j < t0.children@.len());
                    assert(t0.spec_children()[j] == individual.spec_children()[j]);
                    assert(t0.children@[j]@ == individual.children@[j]@);
                }
            }
            if self.probability == 0 {
                assert(t.spec_arena() =~= individual.spec_arena());
            }
        }
        t
    }

    /// One perturbed value: the input moved by a uniform offset of
    /// magnitude at most the rate, saturating at the ends of `i64`, then
    /// clamped into the range when one is set.
    fn perturb<R: Rng>(&self, rng: &mut R, v: i64) -> (r: i64)
        requires
            self.mutation_rate >= 0,
            self.range_limits matches Some(p) ==> p.0 <= p.1,
        ensures
            self.range_limits matches Some(p) ==> p.0 <= r <= p.1,
            self.range_limits is None ==> (v as int) - (self.mutation_rate as int) <= r as int
                <= (v as int) + (self.mutation_rate as int),
    {
        let rate = self.mutation_rate;
        let width: u128 = 2 * (rate as u128) + 1;
        let draw = (rng.next_u64() as u128) % width;
        let offset: i128 = (draw as i128) - (rate as i128);
        let moved_wide: i128 = (v as i128) + offset;
        let moved: i64 = if moved_wide > i64::MAX as i128 {
            i64::MAX
        } else if moved_wide < i64::MIN as i128 {
            i64::MIN
        } else {
            moved_wide as i64
        };
        match self.range_limits {
            Some(p) => {
                if moved < p.0 {
                    p.0
                } else if moved > p.1 {
                    p.1
                } else {
                    moved
                }
            },
            None => moved,
        }
    }
}

} // verus!
