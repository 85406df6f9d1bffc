//! Subtree crossover: swapping one subtree between two parents.
//!
//! One node index is drawn uniformly in each parent; the two subtrees
//! spanned by those nodes are exchanged, and each child's children relation
//! is rebuilt from its new arena. No arity compatibility check is needed at
//! the cut points: a subtree carries its own structure with it.

use vstd::prelude::*;

use crate::errors::GPError;
use crate::rng::{coin, rand_index, Rng, PROB_ONE};
use crate::sampler::OperatorSampler;
use crate::shape::{nonneg, parse, valid_arities};
use crate::shape::{lemma_parse_shift, lemma_splice, lemma_subtree_exists};
use crate::tree::{arena_view, labels_known, spec_label_arity, tree_arities, TreeGenotype};
use crate::tree::{lemma_rebuild_round_trip, lemma_root_spans_tree, lemma_tree_arities_nonneg};

verus! {

/// Concatenates `a[0, i)`, `b[j, j + t)` and `a[i + s, ..)`: the arena of a
/// crossover child.
fn splice_arena(a: &Vec<String>, i: usize, s: usize, b: &Vec<String>, j: usize, t: usize) -> (r:
    Vec<String>)
    requires
        i + s <= a@.len(),
        j + t <= b@.len(),
    ensures
        r@ == a@.subrange(0, i as int) + b@.subrange(j as int, j + t) + a@.subrange(
            i + s,
            a@.len() as int,
        ),
        r@.len() == a@.len() - s + t,
{
    let mut r: Vec<String> = Vec::new();
    let mut p: usize = 0;
    while p < i
        invariant
            i + s <= a@.len(),
            p <= i,
            r@.len() == p,
            forall|x: int| 0 <= x < p ==> #[trigger] r@[x] == a@[x],
        decreases i - p,
    {
        r.push(a[p].clone());
        p = p + 1;
    }
    let bn = b.len();
    let mut q: usize = j;
    while q < j + t
        invariant
            i + s <= a@.len(),
            j + t <= b@.len(),
            bn == b@.len(),
            j <= q <= j + t,
            r@.len() == i + (q - j),
            forall|x: int| 0 <= x < i ==> #[trigger] r@[x] == a@[x],
            forall|x: int| i <= x < r@.len() ==> #[trigger] r@[x] == b@[x - i + j],
        decreases j + t - q,
    {
        r.push(b[q].clone());
        q = q + 1;
    }
    let n = a.len();
    let mut u: usize = i + s;
    while u < n
        invariant
            i + s <= a@.len(),
            n == a@.len(),
            i + s <= u <= n,
            r@.len() == i + t + (u - (i + s)),
            forall|x: int| 0 <= x < i ==> #[trigger] r@[x] == a@[x],
            forall|x: int| i <= x < i + t ==> #[trigger] r@[x] == b@[x - i + j],
            forall|x: int| i + t <= x < r@.len() ==> #[trigger] r@[x] == a@[x - t + s],
        decreases n - u,
    {
        r.push(a[u].clone());
        u = u + 1;
    }
    proof {
        assert(r@ =~= a@.subrange(0, i as int) + b@.subrange(j as int, j + t) + a@.subrange(
            i + s,
            a@.len() as int,
        ));
    }
    r
}

/// Builds one crossover child from its spliced arena, proving that the
/// splice left a single valid tree so the rebuild cannot fail.
pub(crate) fn build_child(
    a: &TreeGenotype,
    i: usize,
    s: usize,
    b: &TreeGenotype,
    j: usize,
    t: usize,
    sampler: &OperatorSampler,
) -> (r: TreeGenotype)
    requires
        sampler.parallel(),
        a.well_formed(),
        a.arity_consistent(*sampler),
        b.well_formed(),
        b.arity_consistent(*sampler),
        i < a.size(),
        j < b.size(),
        parse(a.counts(), i as int, 1) == Some(i + s),
        parse(b.counts(), j as int, 1) == Some(j + t),
    ensures
        r.well_formed(),
        r.arity_consistent(*sampler),
        r.size() == a.size() - s + t,
        r.arena@ == a.arena@.subrange(0, i as int) + b.arena@.subrange(j as int, j + t)
            + a.arena@.subrange(i + s, a.arena@.len() as int),
{
    proof {
        lemma_rebuild_round_trip(*a, *sampler);
        lemma_rebuild_round_trip(*b, *sampler);
        lemma_tree_arities_nonneg(*sampler, a.arena@);
        lemma_tree_arities_nonneg(*sampler, b.arena@);
        lemma_subtree_exists(a.counts(), i as int);
        lemma_subtree_exists(b.counts(), j as int);
    }
    let arena = splice_arena(&a.arena, i, s, &b.arena, j, t);
    proof {
        let la = tree_arities(*sampler, a.arena@);
        let lb = tree_arities(*sampler, b.arena@);
        let seg = lb.subrange(j as int, j + t);
        // The transplanted span is a complete tree in its own right.
        lemma_parse_shift(lb, j as int, 1, j + t, seg, 0);
        assert(valid_arities(seg));
        // Splicing it into the host keeps a single valid tree.
        lemma_splice(la, i as int, i + s, seg);
        let spliced = la.subrange(0, i as int) + seg + la.subrange(i + s, la.len() as int);
        let lr = tree_arities(*sampler, arena@);
        assert forall|x: int| 0 <= x < lr.len() implies lr[x] == spliced[x] && (
        #[trigger] spec_label_arity(*sampler, arena_view(arena@)[x])) is Some by {
            if x < i {
                assert(arena@[x] == a.arena@[x]);
                assert(arena_view(arena@)[x] == arena_view(a.arena@)[x]);
            } else if x < i + t {
                assert(arena@[x] == b.arena@[x - i + j]);
                assert(arena_view(arena@)[x] == arena_view(b.arena@)[x - i + j]);
            } else {
                assert(arena@[x] == a.arena@[x - t + s]);
                assert(arena_view(arena@)[x] == arena_view(a.arena@)[x - t + s]);
            }
        }
        assert(lr =~= spliced);
        assert(valid_arities(lr));
        assert(labels_known(*sampler, arena_view(arena@)));
    }
    let mut child = TreeGenotype::with_arena(arena);
    match child.rebuild_children_from_arena(sampler) {
        Ok(()) => child,
        Err(_) => {
            proof {
                assert(false);
            }
            child
        },
    }
}

/// The two children carry the parents' arenas with one subtree span
/// exchanged: each child is the prefix of one parent up to its cut, the
/// other parent's cut subtree, then the first parent's suffix.
pub open spec fn swapped_subtrees(
    p1: TreeGenotype,
    p2: TreeGenotype,
    c1: TreeGenotype,
    c2: TreeGenotype,
) -> bool {
    exists|i1: int, e1: int, i2: int, e2: int|
        #![trigger p1.arena@.subrange(0, i1), p1.arena@.subrange(e1, p1.size() as int), p2.arena@.subrange(i2, e2)]
        {
            &&& 0 <= i1 < p1.size()
            &&& 0 <= i2 < p2.size()
            &&& parse(p1.counts(), i1, 1) == Some(e1)
            &&& parse(p2.counts(), i2, 1) == Some(e2)
            &&& c1.arena@ == p1.arena@.subrange(0, i1) + p2.arena@.subrange(i2, e2)
                + p1.arena@.subrange(e1, p1.size() as int)
            &&& c2.arena@ == p2.arena@.subrange(0, i2) + p1.arena@.subrange(i1, e1)
                + p2.arena@.subrange(e2, p2.size() as int)
        }
}

/// The subtree crossover operator, applied with a fixed probability.
pub struct SubtreeCrossover {
    pub probability: u32,
}

impl SubtreeCrossover {
    /// Validates and stores the application probability, a fraction of
    /// [`PROB_ONE`]; fails with `InvalidProbability`, and only with it,
    /// when it exceeds the scale.
    pub fn new(probability: u32) -> (r: Result<Self, GPError>)
        ensures
            match r {
                Ok(c) => probability <= PROB_ONE && c.probability == probability,
                Err(e) => e == GPError::InvalidProbability && probability > PROB_ONE,
            },
    {
        if probability > PROB_ONE {
            return Err(GPError::InvalidProbability);
        }
        Ok(SubtreeCrossover { probability })
    }

    /// The crossover that always applies.
    pub fn default() -> (r: Self)
        ensures
            r.probability == PROB_ONE,
    {
        SubtreeCrossover { probability: PROB_ONE }
    }

    /// The stored application probability.
    pub fn probability(&self) -> (r: u32)
        ensures
            r == self.probability,
    {
        self.probability
    }

    /// Crosses two parents over. With the complementary probability the
    /// parents pass through unchanged; otherwise one uniformly drawn
    /// subtree of each is swapped into the other and both children are
    /// rebuilt. Either way the two children are well-formed and together
    /// hold exactly as many nodes as the two parents; with probability
    /// zero they are structurally identical to the parents.
    pub fn variate<R: Rng>(
        &self,
        rng: &mut R,
        parent1: &TreeGenotype,
        parent2: &TreeGenotype,
        sampler: &OperatorSampler,
    ) -> (r: (TreeGenotype, TreeGenotype))
        requires
            self.probability <= PROB_ONE,
            sampler.parallel(),
            parent1.well_formed(),
            parent1.arity_consistent(*sampler),
            parent2.well_formed(),
            parent2.arity_consistent(*sampler),
        ensures
            r.0.well_formed() && r.0.arity_consistent(*sampler),
            r.1.well_formed() && r.1.arity_consistent(*sampler),
            r.0.size() + r.1.size() == parent1.size() + parent2.size(),
            swapped_subtrees(*parent1, *parent2, r.0, r.1) || (r.0.spec_arena()
                == parent1.spec_arena() && r.0.spec_children() == parent1.spec_children()
                && r.1.spec_arena() == parent2.spec_arena() && r.1.spec_children()
                == parent2.spec_children()),
            self.probability == PROB_ONE ==> swapped_subtrees(*parent1, *parent2, r.0, r.1),
            self.probability == 0 ==> {
                &&& r.0.spec_arena() == parent1.spec_arena()
                &&& r.0.spec_children() == parent1.spec_children()
                &&& r.1.spec_arena() == parent2.spec_arena()
                &&& r.1.spec_children() == parent2.spec_children()
            },
    {
        if !coin(rng, self.probability) {
            return (parent1.duplicate(), parent2.duplicate());
        }
        proof {
            lemma_root_spans_tree(*parent1);
            lemma_root_spans_tree(*parent2);
        }
        let i = rand_index(rng, parent1.arena.len());
        let j = rand_index(rng, parent2.arena.len());
        let s = match parent1.subtree_size(i) {
            Ok(v) => v,
            Err(_) => {
                proof {
                    assert(false);
                }
                return (parent1.duplicate(), parent2.duplicate());
            },
        };
        let t = match parent2.subtree_size(j) {
            Ok(v) => v,
            Err(_) => {
                proof {
                    assert(false);
                }
                return (parent1.duplicate(), parent2.duplicate());
            },
        };
        proof {
            assert(nonneg(parent1.counts()));
            assert(nonneg(parent2.counts()));
            lemma_subtree_exists(parent1.counts(), i as int);
            lemma_subtree_exists(parent2.counts(), j as int);
        }
        let child1 = build_child(parent1, i, s, parent2, j, t, sampler);
        let child2 = build_child(parent2, j, t, parent1, i, s, sampler);
        proof {
            assert(parse(parent1.counts(), i as int, 1) == Some(i + s));
            assert(parse(parent2.counts(), j as int, 1) == Some(j + t));
            assert(child1.arena@ == parent1.arena@.subrange(0, i as int)
                + parent2.arena@.subrange(j as int, j + t) + parent1.arena@.subrange(
                i + s,
                parent1.size() as int,
            ));
            assert(child2.arena@ == parent2.arena@.subrange(0, j as int)
                + parent1.arena@.subrange(i as int, i + s) + parent2.arena@.subrange(
                j + t,
                parent2.size() as int,
            ));
            assert(swapped_subtrees(*parent1, *parent2, child1, child2));
        }
        (child1, child2)
    }
}

} // verus!
