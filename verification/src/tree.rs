//! The tree genotype: a pre-order arena of labels plus an explicit children
//! relation.
//!
//! Index 0 is the root; a node's subtree occupies a contiguous index range,
//! and the number of children of every node equals the arity of its label.
//! A genotype may be assembled directly from an arena and a children
//! relation — the caller asserts the invariants then — or from an arena
//! alone, by deriving the relation from the labels' arities in pre-order
//! ([`TreeGenotype::rebuild_children_from_arena`]).

use vstd::prelude::*;

use crate::errors::GPError;
use crate::literal::parse_literal;
use crate::literal::decode_literal;
use crate::sampler::OperatorSampler;
use crate::shape::{kth_child, nonneg, parse, spec_subtree_size, valid_arities};
use crate::shape::{lemma_child_parse, lemma_parse_compose, lemma_parse_count};
use crate::shape::{lemma_parent_exists, lemma_parent_unique, lemma_subtree_exists};

verus! {

/// The labels of an arena, as character sequences.
pub open spec fn arena_view(arena: Seq<String>) -> Seq<Seq<char>> {
    Seq::new(arena.len(), |i: int| arena[i]@)
}

/// The arity a label carries: the arity of its catalog symbol, or zero for
/// an encoded numeric literal. Catalog entries take precedence.
pub open spec fn spec_label_arity(s: OperatorSampler, l: Seq<char>) -> Option<int> {
    match s.spec_arity_of(l) {
        Some(a) => Some(a),
        None => match parse_literal(l) {
            Some(_) => Some(0),
            None => None,
        },
    }
}

/// Every label of the arena carries an arity.
pub open spec fn labels_known(s: OperatorSampler, av: Seq<Seq<char>>) -> bool {
    forall|i: int| 0 <= i < av.len() ==> #[trigger] spec_label_arity(s, av[i]) is Some
}

/// The arity sequence of an arena's labels; unknown labels count as zero.
pub open spec fn tree_arities(s: OperatorSampler, arena: Seq<String>) -> Seq<int> {
    Seq::new(
        arena.len(),
        |i: int|
            match spec_label_arity(s, arena_view(arena)[i]) {
                Some(a) => a,
                None => 0,
            },
    )
}

/// Label arities are counts.
pub proof fn lemma_tree_arities_nonneg(s: OperatorSampler, arena: Seq<String>)
    ensures
        nonneg(tree_arities(s, arena)),
{
    assert forall|i: int| 0 <= i < tree_arities(s, arena).len() implies tree_arities(s, arena)[i]
        >= 0 by {
        let l = arena_view(arena)[i];
        match spec_label_arity(s, l) {
            Some(a) => {
                assert(a >= 0);
            },
            None => {},
        }
    }
}

/// One candidate program: a pre-order arena of labels and, for each node,
/// the ordered list of its children's indices.
#[derive(Debug, PartialEq, Eq)]
pub struct TreeGenotype {
    pub arena: Vec<String>,
    pub children: Vec<Vec<usize>>,
}

impl TreeGenotype {
    /// Number of nodes.
    pub open spec fn size(self) -> nat {
        self.arena@.len()
    }

    /// The labels, as character sequences.
    pub open spec fn spec_arena(self) -> Seq<Seq<char>> {
        arena_view(self.arena@)
    }

    /// The children relation, as sequences of indices.
    pub open spec fn spec_children(self) -> Seq<Seq<usize>> {
        Seq::new(self.children@.len(), |i: int| self.children@[i]@)
    }

    /// The number of children of each node.
    pub open spec fn counts(self) -> Seq<int> {
        Seq::new(self.children@.len(), |i: int| self.children@[i]@.len() as int)
    }

    /// The `k`-th child of node `i`, as an index.
    pub open spec fn child_at(self, i: int, k: int) -> int {
        self.children@[i]@[k] as int
    }

    /// The structural invariant: the children relation is exactly the
    /// pre-order decomposition of the arena by the nodes' child counts, so
    /// the relation is a tree rooted at index 0, every non-root index is the
    /// child of exactly one parent, and every subtree spans a contiguous
    /// range.
    pub open spec fn well_formed(self) -> bool {
        &&& self.children@.len() == self.arena@.len()
        &&& valid_arities(self.counts())
        &&& forall|i: int, k: int|
            0 <= i < self.size() && 0 <= k < self.counts()[i] ==> #[trigger] self.child_at(i, k)
                == kth_child(self.counts(), i, k)
    }

    /// Every node's child count equals the arity its label carries in the
    /// catalog (or zero for a literal).
    pub open spec fn arity_consistent(self, s: OperatorSampler) -> bool {
        &&& self.children@.len() == self.arena@.len()
        &&& forall|i: int|
            0 <= i < self.size() ==> #[trigger] spec_label_arity(s, self.spec_arena()[i]) == Some(
                self.counts()[i],
            )
    }

    /// Assembles a genotype directly from its parts; the caller asserts that
    /// the invariants of the pair hold.
    pub fn new(arena: Vec<String>, children: Vec<Vec<usize>>) -> (r: Self)
        ensures
            r.arena@ == arena@,
            r.children@ == children@,
    {
        TreeGenotype { arena, children }
    }

    /// Starts a genotype from an arena alone, each node still childless;
    /// the relation is meant to be derived next by
    /// [`TreeGenotype::rebuild_children_from_arena`].
    pub fn with_arena(arena: Vec<String>) -> (r: Self)
        ensures
            r.arena@ == arena@,
            r.children@.len() == arena@.len(),
            forall|i: int| 0 <= i < r.children@.len() ==> #[trigger] r.children@[i]@.len() == 0,
    {
        let n = arena.len();
        let mut children: Vec<Vec<usize>> = Vec::new();
        while children.len() < n
            invariant
                children@.len() <= n,
                forall|i: int|
                    0 <= i < children@.len() ==> #[trigger] children@[i]@.len() == 0,
            decreases n - children@.len(),
        {
            children.push(Vec::new());
        }
        TreeGenotype { arena, children }
    }

    /// Decides whether this genotype satisfies the invariants the variation
    /// operators rely on: a well-formed children relation that agrees with
    /// the arity of every label. Callers that assemble a genotype by hand
    /// can assert their claim with this before handing it to an operator.
    pub fn is_consistent(&self, sampler: &OperatorSampler) -> (r: bool)
        requires
            sampler.parallel(),
        ensures
            r == (self.well_formed() && self.arity_consistent(*sampler)),
    {
        let n = self.arena.len();
        if self.children.len() != n {
            return false;
        }
        let ghost la = tree_arities(*sampler, self.arena@);
        match self.construct_children(sampler) {
            Ok(ch) => {
                let mut i: usize = 0;
                while i < n
                    invariant
                        n == self.size(),
                        n == self.children@.len(),
                        ch@.len() == n,
                        la == tree_arities(*sampler, self.arena@),
                        forall|x: int| 0 <= x < ch@.len() ==> #[trigger] ch@[x]@.len() as int
                            == la[x],
                        forall|x: int, k: int|
                            0 <= x < ch@.len() && 0 <= k < la[x] ==> #[trigger] ch@[x]@[k] as int
                                == kth_child(la, x, k),
                        i <= n,
                        forall|x: int| 0 <= x < i ==> #[trigger] self.children@[x]@ == ch@[x]@,
                    decreases n - i,
                {
                    let own = &self.children[i];
                    let derived = &ch[i];
                    if own.len() != derived.len() {
                        proof {
                            if self.well_formed() && self.arity_consistent(*sampler) {
                                lemma_rebuild_round_trip(*self, *sampler);
                                assert(self.counts()[i as int] == la[i as int]);
                            }
                        }
                        return false;
                    }
                    let m = own.len();
                    let mut k: usize = 0;
                    while k < m
                        invariant
                            i < n,
                            n == self.size(),
                            n == self.children@.len(),
                            ch@.len() == n,
                            la == tree_arities(*sampler, self.arena@),
                            forall|x: int, k2: int|
                                0 <= x < ch@.len() && 0 <= k2 < la[x] ==> #[trigger] ch@[x]@[k2]
                                    as int == kth_child(la, x, k2),
                            own@ == self.children@[i as int]@,
                            derived@ == ch@[i as int]@,
                            m == own@.len(),
                            m == derived@.len(),
                            m as int == la[i as int],
                            k <= m,
                            forall|k2: int| 0 <= k2 < k ==> #[trigger] own@[k2] == derived@[k2],
                        decreases m - k,
                    {
                        if own[k] != derived[k] {
                            proof {
                                if self.well_formed() && self.arity_consistent(*sampler) {
                                    lemma_rebuild_round_trip(*self, *sampler);
                                    assert(self.counts() == la);
                                    assert(self.child_at(i as int, k as int) == kth_child(
                                        la,
                                        i as int,
                                        k as int,
                                    ));
                                }
                            }
                            return false;
                        }
                        k = k + 1;
                    }
                    proof {
                        assert(self.children@[i as int]@ =~= ch@[i as int]@);
                    }
                    i = i + 1;
                }
                proof {
                    assert(self.counts() =~= la);
                    assert forall|x: int, k: int|
                        0 <= x < self.size() && 0 <= k < self.counts()[x] implies #[trigger] self
                        .child_at(x, k) == kth_child(self.counts(), x, k) by {
                        assert(self.children@[x]@ == ch@[x]@);
                        assert(ch@[x]@[k] as int == kth_child(la, x, k));
                    }
                    assert forall|x: int| 0 <= x < self.size() implies #[trigger] spec_label_arity(
                        *sampler,
                        self.spec_arena()[x],
                    ) == Some(self.counts()[x]) by {
                        assert(spec_label_arity(*sampler, arena_view(self.arena@)[x]) is Some);
                        assert(self.counts()[x] == la[x]);
                    }
                }
                true
            },
            Err(_) => {
                proof {
                    if self.well_formed() && self.arity_consistent(*sampler) {
                        lemma_rebuild_round_trip(*self, *sampler);
                    }
                }
                false
            },
        }
    }

    /// An independently owned copy, structurally identical: same labels,
    /// same children relation.
    pub fn duplicate(&self) -> (r: Self)
        ensures
            r.arena@ == self.arena@,
            r.spec_arena() == self.spec_arena(),
            r.spec_children() == self.spec_children(),
            r.children@.len() == self.children@.len(),
            r.counts() == self.counts(),
            r.size() == self.size(),
            r.well_formed() == self.well_formed(),
            forall|s: OperatorSampler| #[trigger] r.arity_consistent(s) == self.arity_consistent(s),
    {
        let n = self.arena.len();
        let mut arena2: Vec<String> = Vec::new();
        let mut i: usize = 0;
        while i < n
            invariant
                n == self.arena@.len(),
                i <= n,
                arena2@.len() == i,
                forall|j: int| 0 <= j < i ==> #[trigger] arena2@[j] == self.arena@[j],
            decreases n - i,
        {
            arena2.push(self.arena[i].clone());
            i = i + 1;
        }
        let m = self.children.len();
        let mut children2: Vec<Vec<usize>> = Vec::new();
        let mut p: usize = 0;
        while p < m
            invariant
                m == self.children@.len(),
                p <= m,
                children2@.len() == p,
                forall|j: int| 0 <= j < p ==> #[trigger] children2@[j]@ == self.children@[j]@,
            decreases m - p,
        {
            let inner = &self.children[p];
            let w = inner.len();
            let mut kv: Vec<usize> = Vec::new();
            let mut q: usize = 0;
            while q < w
                invariant
                    w == inner@.len(),
                    q <= w,
                    kv@.len() == q,
                    forall|j: int| 0 <= j < q ==> #[trigger] kv@[j] == inner@[j],
                decreases w - q,
            {
                kv.push(inner[q]);
                q = q + 1;
            }
            proof {
                assert(kv@ =~= inner@);
            }
            children2.push(kv);
            p = p + 1;
        }
        let r = TreeGenotype { arena: arena2, children: children2 };
        proof {
            assert(r.arena@ =~= self.arena@);
            assert(r.spec_children() =~= self.spec_children());
            assert(r.spec_arena() =~= self.spec_arena());
            assert(r.counts() =~= self.counts());
            assert forall|i: int, k: int|
                0 <= i < r.children@.len() && 0 <= k < r.counts()[i] implies #[trigger] r.child_at(
                i,
                k,
            ) == self.child_at(i, k) by {
                assert(r.children@[i]@ == self.children@[i]@);
            }
            assert forall|i: int, k: int|
                0 <= i < self.children@.len() && 0 <= k < self.counts()[i] implies #[trigger] self
                .child_at(i, k) == r.child_at(i, k) by {
                assert(r.children@[i]@ == self.children@[i]@);
            }
            assert forall|s: OperatorSampler| #[trigger] r.arity_consistent(s)
                == self.arity_consistent(s) by {
                assert(r.spec_arena() == self.spec_arena());
                assert(r.counts() == self.counts());
            }
        }
        r
    }

    /// Read-only view of the arena.
    pub fn arena(&self) -> (r: &Vec<String>)
        ensures
            r@ == self.arena@,
    {
        &self.arena
    }

    /// Read-only view of the children relation.
    pub fn children(&self) -> (r: &Vec<Vec<usize>>)
        ensures
            r@ == self.children@,
    {
        &self.children
    }

    /// Number of nodes in the subtree rooted at `index`; fails with
    /// `IndexOutOfBounds`, and only with it, when `index` is not an arena
    /// position.
    pub fn subtree_size(&self, index: usize) -> (r: Result<usize, GPError>)
        requires
            self.well_formed(),
        ensures
            match r {
                Ok(sz) => {
                    &&& index < self.size()
                    &&& sz as int == spec_subtree_size(self.counts(), index as int)
                    &&& 1 <= sz
                    &&& index + sz <= self.size()
                },
                Err(e) => e == GPError::IndexOutOfBounds && index >= self.size(),
            },
    {
        let n = self.arena.len();
        if index >= n {
            return Err(GPError::IndexOutOfBounds);
        }
        let ghost ar = self.counts();
        proof {
            assert(nonneg(ar));
            lemma_subtree_exists(ar, index as int);
        }
        let ghost end = parse(ar, index as int, 1)->0;
        let mut pos: usize = index;
        let mut pending: usize = 1;
        while pending > 0
            invariant
                self.well_formed(),
                ar == self.counts(),
                n == self.size(),
                index <= pos,
                pos + pending <= end,
                end <= n,
                parse(ar, pos as int, pending as int) == Some(end),
                pending == 0 ==> pos == end,
            decreases end - pos,
        {
            proof {
                assert(pos < end);
                assert(pos < n);
            }
            let cnt = self.children[pos].len();
            proof {
                assert(ar[pos as int] == cnt as int);
                assert(parse(ar, pos as int, pending as int) == parse(
                    ar,
                    pos as int + 1,
                    pending as int - 1 + cnt as int,
                ));
                lemma_parse_count(ar, pos as int + 1, pending as int - 1 + cnt as int);
            }
            pending = pending - 1 + cnt;
            pos = pos + 1;
        }
        Ok(pos - index)
    }

    /// Derives the children relation from the arena alone: walking the
    /// arena in pre-order, each node takes as children the next complete
    /// subtrees, as many as the arity its label carries. Succeeds exactly
    /// when every label carries an arity and the arena decomposes into one
    /// complete tree; fails with `UnknownSymbol` exactly when some label
    /// carries no arity, and otherwise with `MalformedArena` exactly when
    /// the decomposition ends early or leaves arena positions unconsumed.
    pub fn construct_children(&self, sampler: &OperatorSampler) -> (r: Result<
        Vec<Vec<usize>>,
        GPError,
    >)
        requires
            sampler.parallel(),
        ensures
            match r {
                Ok(ch) => ({
                    let la = tree_arities(*sampler, self.arena@);
                    &&& labels_known(*sampler, arena_view(self.arena@))
                    &&& valid_arities(la)
                    &&& ch@.len() == self.size()
                    &&& forall|i: int| 0 <= i < ch@.len() ==> #[trigger] ch@[i]@.len() as int == la[i]
                    &&& forall|i: int, k: int|
                        0 <= i < ch@.len() && 0 <= k < la[i] ==> #[trigger] ch@[i]@[k] as int
                            == kth_child(la, i, k)
                }),
                Err(e) => ({
                    let la = tree_arities(*sampler, self.arena@);
                    &&& !(labels_known(*sampler, arena_view(self.arena@)) && valid_arities(la))
                    &&& (e == GPError::UnknownSymbol <==> !labels_known(
                        *sampler,
                        arena_view(self.arena@),
                    ))
                    &&& (e == GPError::MalformedArena <==> labels_known(
                        *sampler,
                        arena_view(self.arena@),
                    ) && !valid_arities(la))
                }),
            },
    {
        let ghost la = tree_arities(*sampler, self.arena@);
        let ghost av = arena_view(self.arena@);
        let n = self.arena.len();
        // Every label must carry an arity before any decomposition is
        // attempted, so the error code names the actual fault.
        let mut i: usize = 0;
        while i < n
            invariant
                sampler.parallel(),
                n == self.size(),
                av == arena_view(self.arena@),
                i <= n,
                forall|j: int| 0 <= j < i ==> #[trigger] spec_label_arity(*sampler, av[j]) is Some,
            decreases n - i,
        {
            match label_arity(sampler, &self.arena[i]) {
                Ok(_) => {},
                Err(_) => {
                    proof {
                        assert(av[i as int] == self.arena@[i as int]@);
                        assert(!(spec_label_arity(*sampler, av[i as int]) is Some));
                    }
                    return Err(GPError::UnknownSymbol);
                },
            }
            i = i + 1;
        }
        let mut ch: Vec<Vec<usize>> = Vec::new();
        while ch.len() < n
            invariant
                ch@.len() <= n,
            decreases n - ch@.len(),
        {
            ch.push(Vec::new());
        }
        if n == 0 {
            proof {
                assert(parse(la, 0, 1) is None);
            }
            return Err(GPError::MalformedArena);
        }
        match build_children(&self.arena, sampler, 0, &mut ch) {
            Ok(end) => {
                if end == n {
                    Ok(ch)
                } else {
                    proof {
                        assert(parse(la, 0, 1) == Some(end as int));
                        assert(!valid_arities(la));
                    }
                    Err(GPError::MalformedArena)
                }
            },
            Err(_) => {
                proof {
                    // Every label is known, so the decomposition itself
                    // failed: the whole arena does not parse as one tree.
                    assert(parse(la, 0, 1) is None);
                    assert(!valid_arities(la));
                }
                Err(GPError::MalformedArena)
            },
        }
    }

    /// Replaces this genotype's children relation by the one derived from
    /// its arena, leaving the genotype untouched on failure. On success the
    /// genotype is well-formed and arity-consistent with the catalog.
    pub fn rebuild_children_from_arena(&mut self, sampler: &OperatorSampler) -> (r: Result<
        (),
        GPError,
    >)
        requires
            sampler.parallel(),
        ensures
            final(self).arena@ == old(self).arena@,
            match r {
                Ok(()) => {
                    &&& final(self).well_formed()
                    &&& final(self).arity_consistent(*sampler)
                    &&& final(self).counts() == tree_arities(*sampler, old(self).arena@)
                },
                Err(e) => {
                    &&& *final(self) == *old(self)
                    &&& !(labels_known(*sampler, arena_view(old(self).arena@)) && valid_arities(
                        tree_arities(*sampler, old(self).arena@),
                    ))
                    &&& (e == GPError::UnknownSymbol <==> !labels_known(
                        *sampler,
                        arena_view(old(self).arena@),
                    ))
                    &&& (e == GPError::MalformedArena <==> labels_known(
                        *sampler,
                        arena_view(old(self).arena@),
                    ) && !valid_arities(tree_arities(*sampler, old(self).arena@)))
                },
            },
    {
        let ghost la = tree_arities(*sampler, self.arena@);
        match self.construct_children(sampler) {
            Ok(ch) => {
                self.children = ch;
                proof {
                    assert(self.counts() =~= la);
                    assert forall|i: int, k: int|
                        0 <= i < self.size() && 0 <= k < self.counts()[i] implies #[trigger] self
                        .child_at(i, k) == kth_child(self.counts(), i, k) by {
                        assert(self.children@[i]@[k] as int == kth_child(la, i, k));
                    }
                    assert forall|i: int| 0 <= i < self.size() implies #[trigger] spec_label_arity(
                        *sampler,
                        self.spec_arena()[i],
                    ) == Some(self.counts()[i]) by {
                        assert(spec_label_arity(*sampler, arena_view(self.arena@)[i]) is Some);
                        assert(self.counts()[i] == la[i]);
                    }
                }
                Ok(())
            },
            Err(e) => Err(e),
        }
    }
}

/// Builds the children of the subtree rooted at `pos`, recursively, filling
/// `ch` at every index of that subtree's span and returning the position
/// right after it.
fn build_children(
    arena: &Vec<String>,
    sampler: &OperatorSampler,
    pos: usize,
    ch: &mut Vec<Vec<usize>>,
) -> (r: Result<usize, GPError>)
    requires
        sampler.parallel(),
        old(ch)@.len() == arena@.len(),
        pos < arena@.len(),
    ensures
        final(ch)@.len() == arena@.len(),
        match r {
            Ok(end) => ({
                let la = tree_arities(*sampler, arena@);
                &&& pos < end <= arena@.len()
                &&& parse(la, pos as int, 1) == Some(end as int)
                &&& forall|j: int|
                    pos <= j < end ==> #[trigger] spec_label_arity(
                        *sampler,
                        arena_view(arena@)[j],
                    ) is Some
                &&& forall|j: int|
                    pos <= j < end ==> #[trigger] final(ch)@[j]@.len() as int == la[j]
                &&& forall|j: int, k: int|
                    pos <= j < end && 0 <= k < la[j] ==> #[trigger] final(ch)@[j]@[k] as int
                        == kth_child(la, j, k)
                &&& forall|j: int|
                    0 <= j < arena@.len() && !(pos <= j < end) ==> #[trigger] final(ch)@[j] == old(
                        ch,
                    )@[j]
            }),
            Err(e) => ({
                let la = tree_arities(*sampler, arena@);
                &&& (e == GPError::MalformedArena || e == GPError::UnknownSymbol)
                &&& (parse(la, pos as int, 1) is None || exists|j: int|
                    pos <= j < arena@.len() && !(#[trigger] spec_label_arity(
                        *sampler,
                        arena_view(arena@)[j],
                    ) is Some))
            }),
        },
    decreases arena@.len() - pos,
{
    let ghost la = tree_arities(*sampler, arena@);
    let ghost av = arena_view(arena@);
    proof {
        lemma_tree_arities_nonneg(*sampler, arena@);
    }
    let n = arena.len();
    let label = &arena[pos];
    let arity = match label_arity(sampler, label) {
        Ok(a) => a,
        Err(e) => {
            proof {
                assert(av[pos as int] == arena@[pos as int]@);
                assert(!(spec_label_arity(*sampler, av[pos as int]) is Some));
            }
            return Err(e);
        },
    };
    proof {
        assert(la[pos as int] == arity as int);
    }
    let mut kids: Vec<usize> = Vec::new();
    let mut cur: usize = pos + 1;
    let mut k: usize = 0;
    while k < arity
        invariant
            sampler.parallel(),
            la == tree_arities(*sampler, arena@),
            av == arena_view(arena@),
            nonneg(la),
            n == arena@.len(),
            ch@.len() == n,
            pos < n,
            la[pos as int] == arity as int,
            spec_label_arity(*sampler, av[pos as int]) == Some(arity as int),
            k <= arity,
            kids@.len() == k,
            pos < cur <= n,
            parse(la, pos as int + 1, k as int) == Some(cur as int),
            cur as int == kth_child(la, pos as int, k as int),
            forall|k2: int| 0 <= k2 < k ==> #[trigger] kids@[k2] as int == kth_child(
                la,
                pos as int,
                k2,
            ),
            forall|j: int|
                pos + 1 <= j < cur ==> #[trigger] spec_label_arity(*sampler, av[j]) is Some,
            forall|j: int| pos + 1 <= j < cur ==> #[trigger] ch@[j]@.len() as int == la[j],
            forall|j: int, k2: int|
                pos + 1 <= j < cur && 0 <= k2 < la[j] ==> #[trigger] ch@[j]@[k2] as int
                    == kth_child(la, j, k2),
            forall|j: int|
                0 <= j < n && !(pos + 1 <= j < cur) ==> #[trigger] ch@[j] == old(ch)@[j],
        decreases arity - k,
    {
        if cur >= n {
            proof {
                assert(cur == n);
                lemma_parse_compose(la, pos as int + 1, k as int, arity as int - k);
                assert(parse(la, cur as int, arity as int - k) is None);
                assert(parse(la, pos as int + 1, arity as int) is None);
                assert(parse(la, pos as int, 1) == parse(la, pos as int + 1, la[pos as int]));
            }
            return Err(GPError::MalformedArena);
        }
        kids.push(cur);
        let sub = match build_children(arena, sampler, cur, ch) {
            Ok(e) => e,
            Err(er) => {
                proof {
                    if parse(la, cur as int, 1) is None {
                        lemma_parse_compose(la, pos as int + 1, k as int, arity as int - k);
                        lemma_parse_compose(la, cur as int, 1, arity as int - k - 1);
                        assert(parse(la, cur as int, arity as int - k) is None);
                        assert(parse(la, pos as int + 1, arity as int) is None);
                        assert(parse(la, pos as int, 1) == parse(
                            la,
                            pos as int + 1,
                            la[pos as int],
                        ));
                    }
                }
                return Err(er);
            },
        };
        proof {
            lemma_parse_compose(la, pos as int + 1, k as int, 1);
            assert(parse(la, pos as int + 1, k as int + 1) == Some(sub as int));
            assert(kth_child(la, pos as int, k as int + 1) == sub as int);
        }
        cur = sub;
        k = k + 1;
    }
    proof {
        assert(parse(la, pos as int, 1) == parse(la, pos as int + 1, la[pos as int]));
    }
    ch.set(pos, kids);
    Ok(cur)
}

/// The arity a label carries, executably: the catalog first, then the
/// literal fallback.
fn label_arity(sampler: &OperatorSampler, label: &String) -> (r: Result<usize, GPError>)
    requires
        sampler.parallel(),
    ensures
        match r {
            Ok(a) => spec_label_arity(*sampler, label@) == Some(a as int),
            Err(e) => e == GPError::UnknownSymbol && spec_label_arity(*sampler, label@) is None,
        },
{
    match sampler.arity_of(label) {
        Ok(a) => Ok(a),
        Err(_) => match decode_literal(label) {
            Some(_) => Ok(0),
            None => Err(GPError::UnknownSymbol),
        },
    }
}

/// The root's subtree is the whole tree: its size is the arena length.
pub proof fn lemma_root_spans_tree(g: TreeGenotype)
    requires
        g.well_formed(),
    ensures
        g.size() >= 1,
        spec_subtree_size(g.counts(), 0) == g.size(),
{
    assert(nonneg(g.counts()));
    lemma_parse_count(g.counts(), 0, 1);
}

/// Every node carries exactly as many children as its label's arity.
pub proof fn lemma_children_count_is_arity(g: TreeGenotype, s: OperatorSampler, i: int)
    requires
        g.arity_consistent(s),
        0 <= i < g.size(),
    ensures
        spec_label_arity(s, g.spec_arena()[i]) == Some(g.spec_children()[i].len() as int),
{
}

/// Some earlier node records `c` among its children.
pub open spec fn has_parent(g: TreeGenotype, c: int) -> bool {
    exists|p: int, k: int|
        0 <= p < c && 0 <= k < g.counts()[p] && #[trigger] g.child_at(p, k) == c
}

/// A well-formed children relation is a tree on the arena's indices: every
/// child follows its parent, every non-root index is a child, and of
/// exactly one parent. Children following parents also rules out cycles
/// and any index among its own descendants.
pub proof fn lemma_tree_relation(g: TreeGenotype)
    requires
        g.well_formed(),
    ensures
        forall|i: int, k: int|
            0 <= i < g.size() && 0 <= k < g.counts()[i] ==> i < #[trigger] g.child_at(i, k)
                < g.size(),
        forall|c: int| 1 <= c < g.size() ==> #[trigger] has_parent(g, c),
        forall|p1: int, k1: int, p2: int, k2: int|
            0 <= p1 < g.size() && 0 <= k1 < g.counts()[p1] && 0 <= p2 < g.size() && 0 <= k2
                < g.counts()[p2] && #[trigger] g.child_at(p1, k1) == #[trigger] g.child_at(
                p2,
                k2,
            ) ==> p1 == p2 && k1 == k2,
{
    let ar = g.counts();
    let n = g.size() as int;
    assert(nonneg(ar));
    assert forall|i: int, k: int|
        0 <= i < n && 0 <= k < ar[i] implies i < #[trigger] g.child_at(i, k) < n by {
        lemma_subtree_exists(ar, i);
        lemma_child_parse(ar, i, k);
        lemma_child_parse(ar, i, k + 1);
        lemma_parse_count(ar, kth_child(ar, i, k), 1);
    }
    assert forall|c: int| 1 <= c < n implies #[trigger] has_parent(g, c) by {
        lemma_parent_exists(ar, 0, c);
        let (p, k) = choose|p: int, k: int|
            0 <= p < c && 0 <= k < ar[p] && #[trigger] kth_child(ar, p, k) == c;
        assert(g.child_at(p, k) == c);
        assert(0 <= p < c && 0 <= k < g.counts()[p] && g.child_at(p, k) == c);
    }
    assert forall|p1: int, k1: int, p2: int, k2: int|
        0 <= p1 < n && 0 <= k1 < ar[p1] && 0 <= p2 < n && 0 <= k2 < ar[p2] && #[trigger] g
        .child_at(p1, k1) == #[trigger] g.child_at(p2, k2) implies p1 == p2 && k1 == k2 by {
        lemma_subtree_exists(ar, p1);
        lemma_subtree_exists(ar, p2);
        lemma_parent_unique(ar, p1, k1, p2, k2);
    }
}

/// Round trip: deriving the children relation from the arena of a
/// well-formed, arity-consistent genotype yields exactly the relation the
/// genotype already has.
pub proof fn lemma_rebuild_round_trip(g: TreeGenotype, s: OperatorSampler)
    requires
        g.well_formed(),
        g.arity_consistent(s),
    ensures
        tree_arities(s, g.arena@) == g.counts(),
        valid_arities(tree_arities(s, g.arena@)),
        labels_known(s, arena_view(g.arena@)),
        forall|i: int, k: int|
            0 <= i < g.size() && 0 <= k < g.counts()[i] ==> #[trigger] g.child_at(i, k)
                == kth_child(tree_arities(s, g.arena@), i, k),
{
    assert(tree_arities(s, g.arena@) =~= g.counts());
}

} // verus!
