//! The theory of pre-order arity sequences.
//!
//! A tree stored as a pre-order arena is fully determined by the arity of each
//! node: scanning the arena left to right, each position consumes one owed
//! subtree and owes as many new ones as its arity. [`parse`] is that scan; a
//! sequence of arities is a single well-formed tree exactly when the scan,
//! started with one owed subtree, ends precisely at the end of the sequence
//! ([`valid_arities`]). The lemmas below characterize the scan by prefix sums
//! and give the composition, framing and splicing facts that the genotype
//! operations are proved against.

use vstd::prelude::*;

verus! {

/// All entries are non-negative, as arities are counts.
pub open spec fn nonneg(ar: Seq<int>) -> bool {
    forall|i: int| 0 <= i < ar.len() ==> ar[i] >= 0
}

/// The pre-order scan: from position `i` with `pending` subtrees owed, each
/// node consumes one owed subtree and owes `ar[i]` new ones. Returns the
/// first position where nothing is owed, or `None` if the sequence ends
/// while subtrees are still owed.
pub open spec fn parse(ar: Seq<int>, i: int, pending: int) -> Option<int>
    decreases ar.len() - i when 0 <= i <= ar.len()
{
    if pending <= 0 {
        Some(i)
    } else if i >= ar.len() {
        None
    } else {
        parse(ar, i + 1, pending - 1 + ar[i])
    }
}

/// The arity sequence decomposes, in pre-order, into exactly one tree.
pub open spec fn valid_arities(ar: Seq<int>) -> bool {
    parse(ar, 0, 1) == Some(ar.len() as int)
}

/// Position of the `k`-th child (0-based) of the node at `i`: the first
/// child directly follows its parent, and each later child follows its
/// predecessor's subtree.
pub open spec fn kth_child(ar: Seq<int>, i: int, k: int) -> int
    decreases k,
{
    if k <= 0 {
        i + 1
    } else {
        match parse(ar, kth_child(ar, i, k - 1), 1) {
            Some(e) => e,
            None => 0,
        }
    }
}

/// Number of nodes of the subtree rooted at `i`, when it parses.
pub open spec fn spec_subtree_size(ar: Seq<int>, i: int) -> int {
    match parse(ar, i, 1) {
        Some(e) => e - i,
        None => 0,
    }
}

/// The depth band of the subtree at `i`: every node fewer than `mind`
/// levels below `i` is a function node, and every node `maxd` levels below
/// it is a leaf.
pub open spec fn grow_shape(ar: Seq<int>, i: int, mind: int, maxd: int) -> bool
    decreases maxd,
{
    if maxd <= 0 {
        ar[i] == 0
    } else {
        &&& (mind >= 1 ==> ar[i] >= 1)
        &&& forall|k: int|
            0 <= k < ar[i] ==> grow_shape(ar, #[trigger] kth_child(ar, i, k), mind - 1, maxd - 1)
    }
}

/// Every leaf of the subtree at `i` lies exactly `d` levels below it.
pub open spec fn full_shape(ar: Seq<int>, i: int, d: int) -> bool
    decreases d,
{
    if d <= 0 {
        ar[i] == 0
    } else {
        ar[i] >= 1 && forall|k: int|
            0 <= k < ar[i] ==> full_shape(ar, #[trigger] kth_child(ar, i, k), d - 1)
    }
}

/// A band whose ends coincide forces every leaf to that exact depth.
pub proof fn lemma_grow_shape_full(ar: Seq<int>, i: int, d: int)
    requires
        grow_shape(ar, i, d, d),
    ensures
        full_shape(ar, i, d),
    decreases d,
{
    if d > 0 {
        assert forall|k: int| 0 <= k < ar[i] implies full_shape(
            ar,
            #[trigger] kth_child(ar, i, k),
            d - 1,
        ) by {
            lemma_grow_shape_full(ar, kth_child(ar, i, k), d - 1);
        }
    }
}

/// Loosening the lower end of the band keeps the shape.
pub proof fn lemma_grow_shape_mono(ar: Seq<int>, i: int, m1: int, m2: int, maxd: int)
    requires
        m1 <= m2,
        grow_shape(ar, i, m2, maxd),
    ensures
        grow_shape(ar, i, m1, maxd),
    decreases maxd,
{
    if maxd > 0 {
        assert forall|k: int| 0 <= k < ar[i] implies grow_shape(
            ar,
            #[trigger] kth_child(ar, i, k),
            m1 - 1,
            maxd - 1,
        ) by {
            lemma_grow_shape_mono(ar, kth_child(ar, i, k), m1 - 1, m2 - 1, maxd - 1);
        }
    }
}

/// The shape of a subtree reads only its span: it carries over to any
/// sequence that agrees with `a` there.
pub proof fn lemma_grow_shape_frame(a: Seq<int>, b: Seq<int>, i: int, e: int, mind: int, maxd: int)
    requires
        nonneg(a),
        0 <= i < a.len(),
        parse(a, i, 1) == Some(e),
        e <= a.len(),
        e <= b.len(),
        forall|j: int| i <= j < e ==> b[j] == a[j],
        grow_shape(a, i, mind, maxd),
    ensures
        grow_shape(b, i, mind, maxd),
    decreases maxd,
{
    lemma_parse_count(a, i, 1);
    assert(b[i] == a[i]);
    if maxd > 0 {
        assert forall|k: int| 0 <= k < b[i] implies grow_shape(
            b,
            #[trigger] kth_child(b, i, k),
            mind - 1,
            maxd - 1,
        ) by {
            lemma_child_parse(a, i, k);
            lemma_child_parse(a, i, k + 1);
            lemma_kth_child_frame(a, b, i, e, k);
            lemma_kth_child_frame(a, b, i, e, k + 1);
            let c = kth_child(a, i, k);
            let ce = kth_child(a, i, k + 1);
            assert(parse(a, c, 1) == Some(ce));
            assert(grow_shape(a, c, mind - 1, maxd - 1));
            lemma_grow_shape_frame(a, b, c, ce, mind - 1, maxd - 1);
        }
    }
}

/// Child positions are determined by the spanned entries alone.
pub proof fn lemma_kth_child_frame(a: Seq<int>, b: Seq<int>, i: int, e: int, k: int)
    requires
        nonneg(a),
        0 <= i < a.len(),
        parse(a, i, 1) == Some(e),
        e <= a.len(),
        e <= b.len(),
        forall|j: int| i <= j < e ==> b[j] == a[j],
        0 <= k <= a[i],
    ensures
        kth_child(b, i, k) == kth_child(a, i, k),
    decreases k,
{
    if k > 0 {
        lemma_kth_child_frame(a, b, i, e, k - 1);
        lemma_child_parse(a, i, k - 1);
        lemma_child_parse(a, i, k);
        let m = kth_child(a, i, k - 1);
        assert(parse(a, m, 1) == Some(kth_child(a, i, k)));
        lemma_parse_frame(a, b, m, 1, kth_child(a, i, k));
    }
}

/// Within a parsed subtree, the scan of the first `k` children ends at the
/// `k`-th child position, and each child spans up to the next.
pub proof fn lemma_child_parse(ar: Seq<int>, i: int, k: int)
    requires
        nonneg(ar),
        0 <= i < ar.len(),
        parse(ar, i, 1) is Some,
        0 <= k <= ar[i],
    ensures
        parse(ar, i + 1, k) == Some(kth_child(ar, i, k)),
        i + 1 <= kth_child(ar, i, k) <= parse(ar, i, 1)->0,
        k >= 1 ==> parse(ar, kth_child(ar, i, k - 1), 1) == Some(kth_child(ar, i, k)),
    decreases k,
{
    let e = parse(ar, i, 1)->0;
    assert(parse(ar, i, 1) == parse(ar, i + 1, ar[i]));
    if k == 0 {
        lemma_parse_count(ar, i + 1, ar[i]);
    } else {
        lemma_child_parse(ar, i, k - 1);
        let m = kth_child(ar, i, k - 1);
        lemma_parse_compose(ar, i + 1, k - 1, ar[i] - (k - 1));
        assert(parse(ar, m, ar[i] - (k - 1)) == Some(e));
        lemma_parse_count(ar, i + 1, k - 1);
        lemma_parse_compose(ar, m, 1, ar[i] - k);
        assert(parse(ar, m, 1) is Some);
        let c = parse(ar, m, 1)->0;
        assert(kth_child(ar, i, k) == c);
        lemma_parse_compose(ar, i + 1, k - 1, 1);
        assert(parse(ar, i + 1, k) == Some(c));
        lemma_parse_count(ar, m, 1);
        assert(parse(ar, c, ar[i] - k) == Some(e));
        lemma_parse_count(ar, c, ar[i] - k);
    }
}

/// Later children sit strictly later in the arena.
pub proof fn lemma_children_increasing(ar: Seq<int>, i: int, k1: int, k2: int)
    requires
        nonneg(ar),
        0 <= i < ar.len(),
        parse(ar, i, 1) is Some,
        0 <= k1 <= k2 <= ar[i],
    ensures
        kth_child(ar, i, k1) <= kth_child(ar, i, k2),
        k1 < k2 ==> kth_child(ar, i, k1) < kth_child(ar, i, k2),
    decreases k2 - k1,
{
    if k1 < k2 {
        lemma_parse_count(ar, i, 1);
        lemma_children_increasing(ar, i, k1, k2 - 1);
        lemma_child_parse(ar, i, k2 - 1);
        lemma_child_parse(ar, i, k2);
        lemma_parse_count(ar, kth_child(ar, i, k2 - 1), 1);
    }
}

/// A subtree beginning strictly inside another ends no later than it: spans
/// nest.
pub proof fn lemma_span_nested(ar: Seq<int>, p1: int, p2: int)
    requires
        nonneg(ar),
        0 <= p1 < ar.len(),
        parse(ar, p1, 1) is Some,
        p1 < p2 < parse(ar, p1, 1)->0,
    ensures
        parse(ar, p2, 1) is Some,
        parse(ar, p2, 1)->0 <= parse(ar, p1, 1)->0,
    decreases ar.len() - p2,
{
    let e1 = parse(ar, p1, 1)->0;
    lemma_parse_to_pend(ar, p1, 1);
    lemma_parse_midpoint(ar, p1, 1, p2);
    let c2 = pend(ar, p1, 1, p2);
    assert(c2 >= 1);
    assert(parse(ar, p2, c2) == Some(e1));
    lemma_parse_count(ar, p1, 1);
    lemma_parse_compose(ar, p2, 1, c2 - 1);
    assert(parse(ar, p2, 1) is Some);
    let e2 = parse(ar, p2, 1)->0;
    assert(parse(ar, e2, c2 - 1) == Some(e1));
    lemma_parse_count(ar, p2, 1);
    lemma_parse_count(ar, e2, c2 - 1);
}

/// Between the first child and the subtree's end, every position falls into
/// some child's span.
proof fn lemma_find_slot(ar: Seq<int>, i: int, c: int, k: int)
    requires
        nonneg(ar),
        0 <= i < ar.len(),
        parse(ar, i, 1) is Some,
        0 <= k < ar[i],
        kth_child(ar, i, k) <= c < parse(ar, i, 1)->0,
        kth_child(ar, i, ar[i]) == parse(ar, i, 1)->0,
    ensures
        exists|q: int|
            k <= q < ar[i] && #[trigger] kth_child(ar, i, q) <= c < kth_child(ar, i, q + 1),
    decreases ar[i] - k,
{
    lemma_child_parse(ar, i, k);
    lemma_child_parse(ar, i, k + 1);
    if c < kth_child(ar, i, k + 1) {
        assert(kth_child(ar, i, k) <= c < kth_child(ar, i, k + 1));
    } else {
        assert(k + 1 < ar[i]);
        lemma_find_slot(ar, i, c, k + 1);
    }
}

/// Every position strictly inside a subtree is a child of some node of that
/// subtree.
pub proof fn lemma_parent_exists(ar: Seq<int>, i: int, c: int)
    requires
        nonneg(ar),
        0 <= i < ar.len(),
        parse(ar, i, 1) is Some,
        i < c < parse(ar, i, 1)->0,
    ensures
        exists|p: int, k: int|
            i <= p < c && 0 <= k < ar[p] && #[trigger] kth_child(ar, p, k) == c,
    decreases parse(ar, i, 1)->0 - i,
{
    let e = parse(ar, i, 1)->0;
    lemma_parse_count(ar, i, 1);
    if ar[i] == 0 {
        assert(parse(ar, i, 1) == parse(ar, i + 1, 0));
        assert(e == i + 1);
    }
    lemma_child_parse(ar, i, ar[i]);
    assert(parse(ar, i + 1, ar[i]) == Some(e));
    assert(kth_child(ar, i, ar[i]) == e);
    lemma_child_parse(ar, i, 0);
    lemma_find_slot(ar, i, c, 0);
    let q = choose|q: int|
        0 <= q < ar[i] && #[trigger] kth_child(ar, i, q) <= c < kth_child(ar, i, q + 1);
    let m = kth_child(ar, i, q);
    if m == c {
        assert(i <= i < c && 0 <= q < ar[i] && kth_child(ar, i, q) == c);
    } else {
        lemma_child_parse(ar, i, q);
        lemma_child_parse(ar, i, q + 1);
        assert(parse(ar, m, 1) == Some(kth_child(ar, i, q + 1)));
        lemma_parent_exists(ar, m, c);
        let (p, k) = choose|p: int, k: int|
            m <= p < c && 0 <= k < ar[p] && #[trigger] kth_child(ar, p, k) == c;
        assert(i <= p < c && 0 <= k < ar[p] && kth_child(ar, p, k) == c);
    }
}

/// No position is a child of two different parents, nor twice of one.
pub proof fn lemma_parent_unique(ar: Seq<int>, p1: int, k1: int, p2: int, k2: int)
    requires
        nonneg(ar),
        0 <= p1 < ar.len(),
        0 <= p2 < ar.len(),
        parse(ar, p1, 1) is Some,
        parse(ar, p2, 1) is Some,
        0 <= k1 < ar[p1],
        0 <= k2 < ar[p2],
        kth_child(ar, p1, k1) == kth_child(ar, p2, k2),
    ensures
        p1 == p2,
        k1 == k2,
    decreases (if p1 <= p2 {
        0int
    } else {
        1int
    }),
{
    if p1 == p2 {
        if k1 < k2 {
            lemma_children_increasing(ar, p1, k1, k2);
        }
        if k2 < k1 {
            lemma_children_increasing(ar, p1, k2, k1);
        }
    } else if p1 > p2 {
        lemma_parent_unique(ar, p2, k2, p1, k1);
    } else {
        // A child of the later node cannot also start a child of the
        // earlier one: the earlier node's child starts bracket, and never
        // enter, the span the later node's children live in.
        let c = kth_child(ar, p1, k1);
        let e1 = parse(ar, p1, 1)->0;
        let e2 = parse(ar, p2, 1)->0;
        lemma_parse_count(ar, p1, 1);
        lemma_parse_count(ar, p2, 1);
        lemma_child_parse(ar, p2, k2);
        lemma_child_parse(ar, p2, k2 + 1);
        assert(p2 < c);
        assert(c < e2) by {
            lemma_parse_count(ar, kth_child(ar, p2, k2), 1);
            assert(kth_child(ar, p2, k2 + 1) <= e2);
        }
        lemma_child_parse(ar, p1, k1);
        lemma_child_parse(ar, p1, k1 + 1);
        assert(c < e1) by {
            lemma_parse_count(ar, c, 1);
            assert(kth_child(ar, p1, k1 + 1) <= e1);
        }
        // p2 sits strictly inside p1's subtree, so inside some child's span.
        lemma_child_parse(ar, p1, ar[p1]);
        assert(kth_child(ar, p1, ar[p1]) == e1);
        lemma_child_parse(ar, p1, 0);
        lemma_find_slot(ar, p1, p2, 0);
        let q = choose|q: int|
            0 <= q < ar[p1] && #[trigger] kth_child(ar, p1, q) <= p2 < kth_child(ar, p1, q + 1);
        let mq = kth_child(ar, p1, q);
        let mq1 = kth_child(ar, p1, q + 1);
        lemma_child_parse(ar, p1, q);
        lemma_child_parse(ar, p1, q + 1);
        assert(parse(ar, mq, 1) == Some(mq1));
        // p2's subtree, child starts included, stays within that child's span.
        if p2 == mq {
            assert(e2 == mq1);
        } else {
            lemma_span_nested(ar, mq, p2);
            assert(e2 <= mq1);
        }
        assert(mq < c < mq1);
        // But c is itself a child start of p1, and the child starts bracket
        // the span (mq, mq1) without entering it.
        if k1 <= q {
            lemma_children_increasing(ar, p1, k1, q);
        } else {
            lemma_children_increasing(ar, p1, q + 1, k1);
        }
        assert(false);
    }
}

/// Chained spans, starting right after a parent, are exactly its child
/// positions.
pub proof fn lemma_bounds_are_children(ar: Seq<int>, i: int, bounds: Seq<int>, j: int)
    requires
        bounds.len() >= j + 1,
        0 <= j,
        bounds[0] == i + 1,
        forall|x: int| 0 <= x < j ==> parse(ar, #[trigger] bounds[x], 1) == Some(bounds[x + 1]),
    ensures
        kth_child(ar, i, j) == bounds[j],
    decreases j,
{
    if j > 0 {
        lemma_bounds_are_children(ar, i, bounds, j - 1);
        assert(parse(ar, bounds[j - 1], 1) == Some(bounds[j]));
    }
}

/// Sum of the entries of `ar` over positions `[i, j)`.
pub open spec fn sum_range(ar: Seq<int>, i: int, j: int) -> int
    decreases j - i
{
    if i >= j {
        0
    } else {
        ar[i] + sum_range(ar, i + 1, j)
    }
}

/// The number of subtrees still owed when a scan that started at `i` owing
/// `c` reaches position `m`: each position passed owed one and repaid its
/// arity.
pub open spec fn pend(ar: Seq<int>, i: int, c: int, m: int) -> int {
    c + sum_range(ar, i, m) - (m - i)
}

pub proof fn lemma_sum_unfold_right(ar: Seq<int>, i: int, j: int)
    requires
        i <= j,
    ensures
        sum_range(ar, i, j + 1) == sum_range(ar, i, j) + ar[j],
    decreases j - i,
{
    if i < j {
        lemma_sum_unfold_right(ar, i + 1, j);
    } else {
        assert(sum_range(ar, i, i + 1) == ar[i] + sum_range(ar, i + 1, i + 1));
        assert(sum_range(ar, i + 1, i + 1) == 0);
        assert(sum_range(ar, i, i) == 0);
    }
}

pub proof fn lemma_sum_split(ar: Seq<int>, i: int, m: int, j: int)
    requires
        i <= m <= j,
    ensures
        sum_range(ar, i, j) == sum_range(ar, i, m) + sum_range(ar, m, j),
    decreases m - i,
{
    if i < m {
        lemma_sum_split(ar, i + 1, m, j);
    }
}

pub proof fn lemma_sum_nonneg(ar: Seq<int>, i: int, j: int)
    requires
        nonneg(ar),
        0 <= i,
        j <= ar.len(),
    ensures
        sum_range(ar, i, j) >= 0,
    decreases j - i,
{
    if i < j {
        lemma_sum_nonneg(ar, i + 1, j);
    }
}

/// Sums agree on segments whose elements agree position by position.
pub proof fn lemma_sum_congruent(a: Seq<int>, ai: int, b: Seq<int>, bi: int, len: int)
    requires
        forall|d: int| 0 <= d < len ==> #[trigger] a[ai + d] == b[bi + d],
    ensures
        sum_range(a, ai, ai + len) == sum_range(b, bi, bi + len),
    decreases len,
{
    if len > 0 {
        assert(a[ai + 0] == b[bi + 0]);
        assert forall|d: int| 0 <= d < len - 1 implies #[trigger] a[(ai + 1) + d] == b[(bi + 1)
            + d] by {
            assert(a[ai + (d + 1)] == b[bi + (d + 1)]);
        }
        lemma_sum_congruent(a, ai + 1, b, bi + 1, len - 1);
        assert(sum_range(a, ai, ai + len) == a[ai] + sum_range(a, ai + 1, ai + len));
        assert(sum_range(b, bi, bi + len) == b[bi] + sum_range(b, bi + 1, bi + len));
    }
}

/// A successful scan, read through its pending counts: the count stays
/// positive strictly inside the scanned span and reaches zero exactly at its
/// end.
pub proof fn lemma_parse_to_pend(ar: Seq<int>, i: int, c: int)
    requires
        nonneg(ar),
        0 <= i <= ar.len(),
        c >= 0,
        parse(ar, i, c) is Some,
    ensures
        i <= parse(ar, i, c)->0 <= ar.len(),
        pend(ar, i, c, parse(ar, i, c)->0) == 0,
        forall|m: int| i <= m < parse(ar, i, c)->0 ==> pend(ar, i, c, m) >= 1,
    decreases ar.len() - i,
{
    let e = parse(ar, i, c)->0;
    if c <= 0 {
        assert(e == i);
        assert(pend(ar, i, c, i) == c);
    } else {
        assert(i < ar.len());
        let c2 = c - 1 + ar[i];
        assert(parse(ar, i + 1, c2) == parse(ar, i, c));
        lemma_parse_to_pend(ar, i + 1, c2);
        assert forall|m: int|
            #![trigger pend(ar, i, c, m)]
            #![trigger pend(ar, i + 1, c2, m)]
            i + 1 <= m <= ar.len() implies pend(ar, i, c, m) == pend(ar, i + 1, c2, m) by {
            assert(sum_range(ar, i, m) == ar[i] + sum_range(ar, i + 1, m));
        }
        assert(pend(ar, i, c, i) == c >= 1);
    }
}

/// The converse: pending counts that stay positive and close at `e` certify
/// that the scan succeeds and ends at `e`.
pub proof fn lemma_pend_to_parse(ar: Seq<int>, i: int, c: int, e: int)
    requires
        0 <= i <= e <= ar.len(),
        c >= 0,
        pend(ar, i, c, e) == 0,
        forall|m: int| i <= m < e ==> pend(ar, i, c, m) >= 1,
    ensures
        parse(ar, i, c) == Some(e),
    decreases e - i,
{
    if i == e {
        assert(pend(ar, i, c, i) == c);
        assert(c == 0);
    } else {
        assert(pend(ar, i, c, i) == c);
        assert(c >= 1);
        let c2 = c - 1 + ar[i];
        assert forall|m: int|
            #![trigger pend(ar, i, c, m)]
            #![trigger pend(ar, i + 1, c2, m)]
            i + 1 <= m <= e implies pend(ar, i + 1, c2, m) == pend(ar, i, c, m) by {
            assert(sum_range(ar, i, m) == ar[i] + sum_range(ar, i + 1, m));
        }
        assert(pend(ar, i + 1, c2, i + 1) == pend(ar, i, c, i + 1));
        if i + 1 < e {
            assert(pend(ar, i, c, i + 1) >= 1);
        }
        assert(c2 >= 0);
        lemma_pend_to_parse(ar, i + 1, c2, e);
    }
}

/// Scanning `a + b` owed subtrees is scanning `a` of them and then, from
/// where that ended, the remaining `b`.
pub proof fn lemma_parse_compose(ar: Seq<int>, i: int, a: int, b: int)
    requires
        nonneg(ar),
        0 <= i <= ar.len(),
        a >= 0,
        b >= 0,
    ensures
        parse(ar, i, a + b) == (match parse(ar, i, a) {
            Some(m) => parse(ar, m, b),
            None => None::<int>,
        }),
    decreases ar.len() - i,
{
    if a == 0 {
    } else if i >= ar.len() {
    } else {
        lemma_parse_compose(ar, i + 1, a - 1 + ar[i], b);
    }
}

/// A successful scan visits at least one position per owed subtree.
pub proof fn lemma_parse_count(ar: Seq<int>, i: int, c: int)
    requires
        nonneg(ar),
        0 <= i <= ar.len(),
        c >= 0,
        parse(ar, i, c) is Some,
    ensures
        i + c <= parse(ar, i, c)->0 <= ar.len(),
    decreases ar.len() - i,
{
    let e = parse(ar, i, c)->0;
    lemma_parse_to_pend(ar, i, c);
    lemma_sum_nonneg(ar, i, e);
    assert(pend(ar, i, c, e) == 0);
}

/// The scan reads only the scanned span: it ends the same way on any
/// sequence that agrees with `a` there.
pub proof fn lemma_parse_frame(a: Seq<int>, b: Seq<int>, i: int, c: int, e: int)
    requires
        nonneg(a),
        0 <= i <= a.len(),
        c >= 0,
        parse(a, i, c) == Some(e),
        e <= a.len(),
        e <= b.len(),
        forall|j: int| i <= j < e ==> b[j] == a[j],
    ensures
        parse(b, i, c) == Some(e),
    decreases e - i,
{
    lemma_parse_count(a, i, c);
    if c == 0 {
    } else {
        assert(i < e);
        assert(i < a.len());
        assert(parse(a, i + 1, c - 1 + a[i]) == Some(e));
        lemma_parse_frame(a, b, i + 1, c - 1 + a[i], e);
        assert(b[i] == a[i]);
    }
}

/// Stopping a successful scan part way: from any midpoint the scan resumes
/// with its pending count there and still ends at the same place.
pub proof fn lemma_parse_midpoint(ar: Seq<int>, i: int, c: int, m: int)
    requires
        nonneg(ar),
        0 <= i <= m,
        i <= ar.len(),
        c >= 0,
        parse(ar, i, c) is Some,
        m <= parse(ar, i, c)->0,
    ensures
        pend(ar, i, c, m) >= 0,
        parse(ar, m, pend(ar, i, c, m)) == parse(ar, i, c),
    decreases m - i,
{
    let e = parse(ar, i, c)->0;
    lemma_parse_to_pend(ar, i, c);
    let cm = pend(ar, i, c, m);
    if m < e {
        assert(cm >= 1);
    } else {
        assert(cm == 0);
    }
    assert forall|x: int| m <= x <= e implies pend(ar, m, cm, x) == pend(ar, i, c, x) by {
        lemma_sum_split(ar, i, m, x);
    }
    lemma_pend_to_parse(ar, m, cm, e);
}

/// The scan only reads the scanned span, wherever that span sits: it ends
/// the same way, shifted, on any sequence holding the same span at offset
/// `o`.
pub proof fn lemma_parse_shift(a: Seq<int>, i: int, c: int, e: int, b: Seq<int>, o: int)
    requires
        nonneg(a),
        0 <= i <= a.len(),
        c >= 0,
        parse(a, i, c) == Some(e),
        0 <= o,
        o + (e - i) <= b.len(),
        forall|d: int| 0 <= d < e - i ==> #[trigger] b[o + d] == a[i + d],
    ensures
        parse(b, o, c) == Some(o + (e - i)),
{
    lemma_parse_to_pend(a, i, c);
    assert forall|d: int| 0 <= d <= e - i implies #[trigger] pend(b, o, c, o + d) == pend(
        a,
        i,
        c,
        i + d,
    ) by {
        lemma_sum_congruent(b, o, a, i, d);
    }
    assert(pend(b, o, c, o + (e - i)) == pend(a, i, c, e));
    assert forall|m: int| o <= m < o + (e - i) implies pend(b, o, c, m) >= 1 by {
        let d = m - o;
        assert(pend(b, o, c, o + d) == pend(a, i, c, i + d));
        assert(pend(a, i, c, i + d) >= 1);
    }
    lemma_pend_to_parse(b, o, c, o + (e - i));
}

/// Inside a single valid tree, every position roots a subtree: the scan from
/// it with one owed subtree succeeds and stays within the arena.
pub proof fn lemma_subtree_exists(ar: Seq<int>, i: int)
    requires
        nonneg(ar),
        valid_arities(ar),
        0 <= i < ar.len(),
    ensures
        parse(ar, i, 1) is Some,
        i < parse(ar, i, 1)->0 <= ar.len(),
    decreases ar.len() - i,
{
    let n = ar.len() as int;
    lemma_parse_midpoint(ar, 0, 1, i);
    let ci = pend(ar, 0, 1, i);
    assert(parse(ar, i, ci) == Some(n));
    lemma_parse_to_pend(ar, 0, 1);
    assert(ci >= 1);
    lemma_parse_compose(ar, i, 1, ci - 1);
    assert(parse(ar, i, 1) is Some);
    let e = parse(ar, i, 1)->0;
    lemma_parse_count(ar, i, 1);
    assert(parse(ar, e, ci - 1) == Some(n));
    lemma_parse_count(ar, e, ci - 1);
}

/// Replacing the subtree rooted at `i`, spanning `[i, e)`, by any complete
/// tree `t` leaves a single valid tree.
pub proof fn lemma_splice(ar: Seq<int>, i: int, e: int, t: Seq<int>)
    requires
        nonneg(ar),
        nonneg(t),
        valid_arities(ar),
        valid_arities(t),
        0 <= i < ar.len(),
        parse(ar, i, 1) == Some(e),
    ensures
        valid_arities(ar.subrange(0, i) + t + ar.subrange(e, ar.len() as int)),
        nonneg(ar.subrange(0, i) + t + ar.subrange(e, ar.len() as int)),
        (ar.subrange(0, i) + t + ar.subrange(e, ar.len() as int)).len() == ar.len() - (e - i)
            + t.len(),
{
    let n = ar.len() as int;
    let tl = t.len() as int;
    lemma_parse_count(ar, i, 1);
    assert(i < e <= n);
    let ns = ar.subrange(0, i) + t + ar.subrange(e, n);
    let nl = n - (e - i) + tl;
    assert(ns.len() == nl);
    assert(forall|j: int| 0 <= j < i ==> #[trigger] ns[j] == ar[j]);
    assert(forall|d: int| 0 <= d < tl ==> #[trigger] ns[i + d] == t[d]);
    assert(forall|d: int| 0 <= d < n - e ==> #[trigger] ns[i + tl + d] == ar[e + d]);
    assert(nonneg(ns));

    lemma_parse_to_pend(ar, 0, 1);
    lemma_parse_to_pend(ar, i, 1);
    lemma_parse_to_pend(t, 0, 1);

    // The pending count of `ar`'s scan at i, and the drop the removed span causes.
    assert(pend(ar, 0, 1, e) == pend(ar, 0, 1, i) - 1) by {
        lemma_sum_split(ar, 0, i, e);
        assert(pend(ar, i, 1, e) == 0);
    }

    // Prefix segment: the scans agree up to i.
    assert forall|m: int| 0 <= m <= i implies pend(ns, 0, 1, m) == pend(ar, 0, 1, m) by {
        lemma_sum_congruent(ns, 0, ar, 0, m);
    }

    // Middle segment: the transplanted tree's own scan rides on top.
    assert forall|d: int| 0 <= d <= tl implies pend(ns, 0, 1, i + d) == pend(ar, 0, 1, i) + pend(
        t,
        0,
        1,
        d,
    ) - 1 by {
        lemma_sum_split(ns, 0, i, i + d);
        lemma_sum_congruent(ns, 0, ar, 0, i);
        lemma_sum_congruent(ns, i, t, 0, d);
    }

    // Tail segment: the scans agree again, shifted.
    assert forall|d: int| 0 <= d <= n - e implies #[trigger] pend(ns, 0, 1, i + tl + d) == pend(
        ar,
        0,
        1,
        e + d,
    ) by {
        lemma_sum_split(ns, 0, i + tl, i + tl + d);
        lemma_sum_split(ns, 0, i, i + tl);
        lemma_sum_congruent(ns, 0, ar, 0, i);
        lemma_sum_congruent(ns, i, t, 0, tl);
        lemma_sum_congruent(ns, i + tl, ar, e, d);
        lemma_sum_split(ar, 0, e, e + d);
        lemma_sum_split(ar, 0, i, e);
        assert(pend(ar, i, 1, e) == 0);
        assert(pend(t, 0, 1, tl) == 0);
    }

    assert(pend(ns, 0, 1, nl) == 0);
    assert forall|m: int| 0 <= m < nl implies pend(ns, 0, 1, m) >= 1 by {
        if m < i {
            assert(pend(ns, 0, 1, m) == pend(ar, 0, 1, m));
        } else if m <= i + tl {
            let d = m - i;
            assert(pend(ns, 0, 1, m) == pend(ar, 0, 1, i) + pend(t, 0, 1, d) - 1);
            if d < tl {
                assert(pend(t, 0, 1, d) >= 1);
                assert(pend(ar, 0, 1, i) >= 1);
            } else {
                // m == i + tl < nl forces e < n, so the scan of `ar` is still
                // owed something right after the removed span.
                assert(pend(t, 0, 1, tl) == 0);
                assert(e < n);
                assert(pend(ar, 0, 1, e) >= 1);
            }
        } else {
            let d = m - i - tl;
            assert(pend(ns, 0, 1, i + tl + d) == pend(ar, 0, 1, e + d));
            assert(e + d < n);
            assert(pend(ar, 0, 1, e + d) >= 1);
        }
    }
    lemma_pend_to_parse(ns, 0, 1, nl);
}

} // verus!
