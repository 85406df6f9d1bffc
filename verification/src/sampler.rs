//! The weighted operator catalog.
//!
//! A sampler holds the available node symbols, their arities and their
//! sampling weights, as three parallel lists of equal length. Weights need
//! not sum to anything in particular: a draw is made proportionally to the
//! weights of the symbols that pass the requested arity filter. Only the
//! weights may change after construction, through [`OperatorSampler::update_weights`].

use vstd::prelude::*;

use crate::errors::GPError;
use crate::rng::Rng;
use crate::shape::{nonneg, sum_range};
use crate::shape::{lemma_sum_nonneg, lemma_sum_unfold_right};

verus! {

/// Index of the first entry of `ops` equal to `l`, or `-1` if none is.
pub open spec fn first_match(ops: Seq<Seq<char>>, l: Seq<char>) -> int
    decreases ops.len(),
{
    if ops.len() == 0 {
        -1
    } else if ops[0] == l {
        0
    } else {
        let r = first_match(ops.drop_first(), l);
        if r < 0 {
            -1
        } else {
            r + 1
        }
    }
}

/// `first_match` finds the first equal entry, and `-1` only when none exists.
pub proof fn lemma_first_match(ops: Seq<Seq<char>>, l: Seq<char>)
    ensures
        first_match(ops, l) == -1 ==> forall|k: int| 0 <= k < ops.len() ==> ops[k] != l,
        first_match(ops, l) != -1 ==> {
            &&& 0 <= first_match(ops, l) < ops.len()
            &&& ops[first_match(ops, l)] == l
            &&& forall|k: int| 0 <= k < first_match(ops, l) ==> ops[k] != l
        },
    decreases ops.len(),
{
    if ops.len() == 0 {
    } else if ops[0] == l {
    } else {
        let rest = ops.drop_first();
        lemma_first_match(rest, l);
        assert(forall|k: int| 0 <= k < rest.len() ==> rest[k] == ops[k + 1]);
        let r = first_match(rest, l);
        if r == -1 {
            assert forall|k: int| 0 <= k < ops.len() implies ops[k] != l by {
                if k > 0 {
                    assert(rest[k - 1] == ops[k]);
                }
            }
        } else {
            assert(ops[r + 1] == rest[r]);
            assert forall|k: int| 0 <= k < r + 1 implies ops[k] != l by {
                if k > 0 {
                    assert(rest[k - 1] == ops[k]);
                }
            }
        }
    }
}

/// An arity restriction on a draw: anything, exactly a given arity, or any
/// function symbol (arity at least one).
#[derive(Clone, Copy, Debug, PartialEq, Eq, Structural)]
pub enum ArityFilter {
    Any,
    Exactly(usize),
    Function,
}

/// Whether arity `a` passes the filter.
pub open spec fn filter_matches(f: ArityFilter, a: int) -> bool {
    match f {
        ArityFilter::Any => true,
        ArityFilter::Exactly(k) => a == k as int,
        ArityFilter::Function => a >= 1,
    }
}

fn filter_match(f: &ArityFilter, a: usize) -> (r: bool)
    ensures
        r == filter_matches(*f, a as int),
{
    match f {
        ArityFilter::Any => true,
        ArityFilter::Exactly(k) => a == *k,
        ArityFilter::Function => a >= 1,
    }
}

/// The symbol catalog with its arities and mutable sampling weights.
pub struct OperatorSampler {
    pub operators: Vec<String>,
    pub arities: Vec<usize>,
    pub weights: Vec<u64>,
}

impl OperatorSampler {
    /// The three lists run in parallel. This is the catalog's standing
    /// invariant: the constructor establishes it and every operation
    /// preserves it.
    pub open spec fn parallel(self) -> bool {
        self.operators@.len() == self.arities@.len() && self.operators@.len()
            == self.weights@.len()
    }

    /// Number of catalog entries.
    pub open spec fn catalog_len(self) -> nat {
        self.operators@.len()
    }

    /// The symbol names, as character sequences.
    pub open spec fn ops_view(self) -> Seq<Seq<char>> {
        Seq::new(self.operators@.len(), |i: int| self.operators@[i]@)
    }

    /// The arities, parallel to `ops_view`.
    pub open spec fn arities_view(self) -> Seq<usize> {
        self.arities@
    }

    /// The weights, parallel to `ops_view`.
    pub open spec fn weights_view(self) -> Seq<u64> {
        self.weights@
    }

    /// No two catalog entries share a name.
    pub open spec fn names_unique(self) -> bool {
        forall|i: int, j: int|
            0 <= i < j < self.ops_view().len() ==> self.ops_view()[i] != self.ops_view()[j]
    }

    /// The arity of the first catalog entry named `l`, if any.
    pub open spec fn spec_arity_of(self, l: Seq<char>) -> Option<int> {
        let fm = first_match(self.ops_view(), l);
        if fm >= 0 {
            Some(self.arities@[fm] as int)
        } else {
            None
        }
    }

    /// A symbol of that name, with that arity and a positive weight, is in
    /// the catalog.
    pub open spec fn has_entry(self, l: Seq<char>, f: ArityFilter) -> bool {
        exists|i: int|
            0 <= i < self.catalog_len() && self.ops_view()[i] == l && filter_matches(
                f,
                self.arities@[i] as int,
            ) && self.weights@[i] > 0
    }

    /// Some catalog entry passes the filter with a positive weight.
    pub open spec fn has_weighted(self, f: ArityFilter) -> bool {
        exists|i: int|
            0 <= i < self.catalog_len() && filter_matches(f, self.arities@[i] as int)
                && self.weights@[i] > 0
    }

    /// The weights after masking by the filter: entries that fail it count
    /// as zero.
    pub open spec fn masked(self, f: ArityFilter) -> Seq<int> {
        Seq::new(
            self.weights@.len(),
            |i: int|
                if filter_matches(f, self.arities@[i] as int) {
                    self.weights@[i] as int
                } else {
                    0
                },
        )
    }

    /// Builds a catalog from parallel lists of names, arities and weights;
    /// fails with `LengthMismatch`, and only with it, when the lists'
    /// lengths differ.
    pub fn new(operators: Vec<String>, arities: Vec<usize>, weights: Vec<u64>) -> (r: Result<
        Self,
        GPError,
    >)
        ensures
            match r {
                Ok(s) => {
                    &&& s.parallel()
                    &&& operators@.len() == arities@.len() && operators@.len() == weights@.len()
                    &&& s.ops_view() == Seq::new(operators@.len(), |i: int| operators@[i]@)
                    &&& s.arities_view() == arities@
                    &&& s.weights_view() == weights@
                },
                Err(e) => {
                    &&& e == GPError::LengthMismatch
                    &&& !(operators@.len() == arities@.len() && operators@.len() == weights@.len())
                },
            },
    {
        if operators.len() != arities.len() || operators.len() != weights.len() {
            return Err(GPError::LengthMismatch);
        }
        Ok(OperatorSampler { operators, arities, weights })
    }

    /// Read-only view of the symbol names.
    pub fn operators(&self) -> (r: &Vec<String>)
        ensures
            r@.len() == self.catalog_len(),
            forall|i: int| 0 <= i < r@.len() ==> #[trigger] r@[i]@ == self.ops_view()[i],
    {
        &self.operators
    }

    /// Read-only view of the arities.
    pub fn arities(&self) -> (r: &Vec<usize>)
        ensures
            r@ == self.arities_view(),
    {
        &self.arities
    }

    /// Read-only view of the weights.
    pub fn weights(&self) -> (r: &Vec<u64>)
        ensures
            r@ == self.weights_view(),
    {
        &self.weights
    }

    /// Replaces the weights; fails with `LengthMismatch`, and only with it,
    /// when the new list's length differs from the catalog size, leaving the
    /// sampler unchanged then.
    pub fn update_weights(&mut self, new_weights: Vec<u64>) -> (r: Result<(), GPError>)
        requires
            old(self).parallel(),
        ensures
            match r {
                Ok(()) => {
                    &&& final(self).parallel()
                    &&& new_weights@.len() == old(self).catalog_len()
                    &&& final(self).weights_view() == new_weights@
                    &&& final(self).ops_view() == old(self).ops_view()
                    &&& final(self).arities_view() == old(self).arities_view()
                },
                Err(e) => {
                    &&& e == GPError::LengthMismatch
                    &&& new_weights@.len() != old(self).catalog_len()
                    &&& *final(self) == *old(self)
                },
            },
    {
        if new_weights.len() != self.operators.len() {
            return Err(GPError::LengthMismatch);
        }
        self.weights = new_weights;
        Ok(())
    }

    /// Decides whether all catalog names are distinct — the catalog
    /// invariant the initializers and label-redrawing mutation rely on.
    pub fn has_unique_names(&self) -> (r: bool)
        ensures
            r == self.names_unique(),
    {
        let n = self.operators.len();
        let mut i: usize = 0;
        while i < n
            invariant
                n == self.ops_view().len(),
                i <= n,
                forall|a: int, b: int|
                    0 <= a < b < n && a < i ==> self.ops_view()[a] != self.ops_view()[b],
            decreases n - i,
        {
            let mut j: usize = i + 1;
            while j < n
                invariant
                    n == self.ops_view().len(),
                    i < j <= n,
                    i < n,
                    forall|a: int, b: int|
                        0 <= a < b < n && a < i ==> self.ops_view()[a] != self.ops_view()[b],
                    forall|b: int| i < b < j ==> self.ops_view()[i as int] != self.ops_view()[b],
                decreases n - j,
            {
                if self.operators[i] == self.operators[j] {
                    proof {
                        assert(self.ops_view()[i as int] == self.ops_view()[j as int]);
                    }
                    return false;
                }
                j = j + 1;
            }
            i = i + 1;
        }
        true
    }

    /// Looks a symbol up by name; returns the arity of its first catalog
    /// entry, or fails with `UnknownSymbol`, and only with it, when no entry
    /// has that name.
    pub fn arity_of(&self, symbol: &String) -> (r: Result<usize, GPError>)
        requires
            self.parallel(),
        ensures
            match r {
                Ok(a) => self.spec_arity_of(symbol@) == Some(a as int),
                Err(e) => e == GPError::UnknownSymbol && self.spec_arity_of(symbol@) is None,
            },
    {
        let n = self.operators.len();
        let mut i: usize = 0;
        while i < n
            invariant
                n == self.catalog_len(),
                self.parallel(),
                i <= n,
                forall|k: int| 0 <= k < i ==> self.ops_view()[k] != symbol@,
            decreases n - i,
        {
            if self.operators[i] == *symbol {
                proof {
                    lemma_first_match(self.ops_view(), symbol@);
                    let fm = first_match(self.ops_view(), symbol@);
                    assert(self.ops_view()[i as int] == symbol@);
                    assert(fm != -1);
                    assert(fm == i as int);
                }
                return Ok(self.arities[i]);
            }
            i = i + 1;
        }
        proof {
            lemma_first_match(self.ops_view(), symbol@);
            let fm = first_match(self.ops_view(), symbol@);
            assert(fm != -1 ==> self.ops_view()[fm] == symbol@);
            assert(fm == -1);
        }
        Err(GPError::UnknownSymbol)
    }

    /// Draws a catalog entry with probability proportional to its weight
    /// among those passing the filter; `None` exactly when no entry passes
    /// with a positive weight.
    fn pick_weighted<R: Rng>(&self, rng: &mut R, f: ArityFilter) -> (r: Option<String>)
        requires
            self.parallel(),
        ensures
            match r {
                Some(s) => self.has_entry(s@, f),
                None => !self.has_weighted(f),
            },
    {
        let ghost ms = self.masked(f);
        let n = self.weights.len();

        // Total masked weight, exactly; it fits in u128 because each of the
        // at most 2^64 entries is below 2^64.
        let mut total: u128 = 0;
        let mut i: usize = 0;
        while i < n
            invariant
                self.parallel(),
                n == self.weights@.len(),
                ms == self.masked(f),
                i <= n,
                total as int == sum_range(ms, 0, i as int),
                total as int <= (i as int) * (u64::MAX as int),
            decreases n - i,
        {
            let w: u64 = if filter_match(&f, self.arities[i]) {
                self.weights[i]
            } else {
                0
            };
            proof {
                lemma_sum_unfold_right(ms, 0, i as int);
                assert(ms[i as int] == w as int);
            }
            total = total + (w as u128);
            i = i + 1;
        }
        if total == 0 {
            proof {
                assert(nonneg(ms));
                lemma_masked_zero(ms, 0, n as int);
                assert forall|k: int|
                    0 <= k < n implies !(filter_matches(f, self.arities@[k] as int)
                    && self.weights@[k] > 0) by {
                    assert(ms[k] == 0);
                }
            }
            return None;
        }

        let draw = (rng.next_u64() as u128) % total;
        let mut acc: u128 = 0;
        let mut j: usize = 0;
        while j < n
            invariant
                self.parallel(),
                n == self.weights@.len(),
                ms == self.masked(f),
                j <= n,
                acc as int == sum_range(ms, 0, j as int),
                acc as int <= (j as int) * (u64::MAX as int),
                draw as int >= acc as int,
                (draw as int) < sum_range(ms, 0, n as int),
            decreases n - j,
        {
            let w: u64 = if filter_match(&f, self.arities[j]) {
                self.weights[j]
            } else {
                0
            };
            proof {
                lemma_sum_unfold_right(ms, 0, j as int);
                assert(ms[j as int] == w as int);
            }
            if draw < acc + (w as u128) {
                let s = self.operators[j].clone();
                proof {
                    assert(w > 0);
                    assert(s@ == self.ops_view()[j as int]);
                    assert(0 <= (j as int) && (j as int) < self.catalog_len()
                        && self.ops_view()[j as int] == s@
                        && filter_matches(f, self.arities@[j as int] as int)
                        && self.weights@[j as int] > 0);
                }
                return Some(s);
            }
            acc = acc + (w as u128);
            j = j + 1;
        }
        proof {
            assert(false);
        }
        None
    }

    /// Draws any symbol, with probability proportional to its weight; fails
    /// with `EmptyCatalog`, and only with it, when the catalog is empty or
    /// all weights are zero.
    pub fn sample_any<R: Rng>(&self, rng: &mut R) -> (r: Result<String, GPError>)
        requires
            self.parallel(),
        ensures
            match r {
                Ok(s) => self.has_entry(s@, ArityFilter::Any),
                Err(e) => e == GPError::EmptyCatalog && !self.has_weighted(ArityFilter::Any),
            },
    {
        match self.pick_weighted(rng, ArityFilter::Any) {
            Some(s) => Ok(s),
            None => Err(GPError::EmptyCatalog),
        }
    }

    /// Draws among the symbols of exactly the given arity; fails with
    /// `NoMatchingArity`, and only with it, when no such symbol has a
    /// positive weight.
    pub fn sample_by_arity<R: Rng>(&self, rng: &mut R, arity: usize) -> (r: Result<String, GPError>)
        requires
            self.parallel(),
        ensures
            match r {
                Ok(s) => self.has_entry(s@, ArityFilter::Exactly(arity)),
                Err(e) => e == GPError::NoMatchingArity && !self.has_weighted(
                    ArityFilter::Exactly(arity),
                ),
            },
    {
        match self.pick_weighted(rng, ArityFilter::Exactly(arity)) {
            Some(s) => Ok(s),
            None => Err(GPError::NoMatchingArity),
        }
    }

    /// Draws among the terminal symbols (arity zero); fails with
    /// `NoMatchingArity`, and only with it, when no terminal has a positive
    /// weight.
    pub fn sample_terminal<R: Rng>(&self, rng: &mut R) -> (r: Result<String, GPError>)
        requires
            self.parallel(),
        ensures
            match r {
                Ok(s) => self.has_entry(s@, ArityFilter::Exactly(0)),
                Err(e) => e == GPError::NoMatchingArity && !self.has_weighted(
                    ArityFilter::Exactly(0),
                ),
            },
    {
        self.sample_by_arity(rng, 0)
    }

    /// Draws among the function symbols (arity at least one); fails with
    /// `NoMatchingArity`, and only with it, when no function symbol has a
    /// positive weight.
    pub fn sample_function<R: Rng>(&self, rng: &mut R) -> (r: Result<String, GPError>)
        requires
            self.parallel(),
        ensures
            match r {
                Ok(s) => self.has_entry(s@, ArityFilter::Function),
                Err(e) => e == GPError::NoMatchingArity && !self.has_weighted(ArityFilter::Function),
            },
    {
        match self.pick_weighted(rng, ArityFilter::Function) {
            Some(s) => Ok(s),
            None => Err(GPError::NoMatchingArity),
        }
    }
}

/// With unique names, looking up the name of entry `i` yields exactly entry
/// `i`'s arity.
pub proof fn lemma_unique_symbol_arity(s: OperatorSampler, i: int)
    requires
        s.parallel(),
        s.names_unique(),
        0 <= i < s.catalog_len(),
    ensures
        s.spec_arity_of(s.ops_view()[i]) == Some(s.arities_view()[i] as int),
{
    let l = s.ops_view()[i];
    lemma_first_match(s.ops_view(), l);
    let fm = first_match(s.ops_view(), l);
    assert(fm != -1);
    if fm < i {
        assert(s.ops_view()[fm] != s.ops_view()[i]);
    }
    if fm > i {
        assert(s.ops_view()[i] != l);
    }
    assert(fm == i);
}

/// A sum of masked weights is zero only when every one of them is.
proof fn lemma_masked_zero(ms: Seq<int>, i: int, j: int)
    requires
        nonneg(ms),
        0 <= i <= j <= ms.len(),
        sum_range(ms, i, j) == 0,
    ensures
        forall|k: int| i <= k < j ==> ms[k] == 0,
    decreases j - i,
{
    if i < j {
        lemma_sum_nonneg(ms, i + 1, j);
        lemma_masked_zero(ms, i + 1, j);
    }
}

} // verus!
