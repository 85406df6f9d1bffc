//! An individual: one genotype paired with its fitness.
//!
//! Fitness is assigned outside the engine and carried here as an opaque
//! scalar; whether larger or smaller is better is the selector's policy,
//! not the individual's.

use vstd::prelude::*;

use crate::errors::GPError;
use crate::tree::TreeGenotype;

verus! {

/// One member of a population.
#[derive(Debug, PartialEq, Eq)]
pub struct TreeIndividual {
    pub genotype: TreeGenotype,
    pub fitness: i64,
}

impl TreeIndividual {
    /// Pairs a genotype with its externally computed fitness.
    pub fn new(genotype: TreeGenotype, fitness: i64) -> (r: Self)
        ensures
            r.genotype == genotype,
            r.fitness == fitness,
    {
        TreeIndividual { genotype, fitness }
    }

    /// The genotype carried.
    pub fn genotype(&self) -> (r: &TreeGenotype)
        ensures
            *r == self.genotype,
    {
        &self.genotype
    }

    /// The fitness carried.
    pub fn fitness(&self) -> (r: i64)
        ensures
            r == self.fitness,
    {
        self.fitness
    }

    /// Pairs genotypes with fitness values position by position; fails
    /// with `LengthMismatch`, and only with it, when the two sequences'
    /// lengths differ. The genotypes are copied, leaving the inputs
    /// untouched.
    pub fn from_vecs(genotypes: &Vec<TreeGenotype>, fitness: &Vec<i64>) -> (r: Result<
        Vec<TreeIndividual>,
        GPError,
    >)
        ensures
            match r {
                Ok(pop) => {
                    &&& genotypes@.len() == fitness@.len()
                    &&& pop@.len() == genotypes@.len()
                    &&& forall|i: int|
                        0 <= i < pop@.len() ==> {
                            &&& (#[trigger] pop@[i].genotype.spec_arena())
                                == genotypes@[i].spec_arena()
                            &&& pop@[i].genotype.spec_children() == genotypes@[i].spec_children()
                            &&& pop@[i].fitness == fitness@[i]
                        }
                },
                Err(e) => e == GPError::LengthMismatch && genotypes@.len() != fitness@.len(),
            },
    {
        if genotypes.len() != fitness.len() {
            return Err(GPError::LengthMismatch);
        }
        let n = genotypes.len();
        let mut pop: Vec<TreeIndividual> = Vec::new();
        let mut i: usize = 0;
        while i < n
            invariant
                n == genotypes@.len(),
                n == fitness@.len(),
                i <= n,
                pop@.len() == i,
                forall|j: int|
                    0 <= j < i ==> {
                        &&& (#[trigger] pop@[j].genotype.spec_arena())
                            == genotypes@[j].spec_arena()
                        &&& pop@[j].genotype.spec_children() == genotypes@[j].spec_children()
                        &&& pop@[j].fitness == fitness@[j]
                    },
            decreases n - i,
        {
            pop.push(TreeIndividual { genotype: genotypes[i].duplicate(), fitness: fitness[i] });
            i = i + 1;
        }
        Ok(pop)
    }
}

} // verus!
