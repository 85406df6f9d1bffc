//! Tournament selection: competitive sampling of one parent.
//!
//! A tournament draws its contestants uniformly at random, with
//! replacement, and hands back a copy of the genotype of the fittest one.
//! Which direction of fitness is "best" is an explicit policy of the
//! selector, fixed at construction.

use vstd::prelude::*;

use crate::errors::GPError;
use crate::individual::TreeIndividual;
use crate::rng::{rand_index, Rng};
use crate::tree::TreeGenotype;

verus! {

/// Whether fitness `a` is at least as good as `b` under the direction.
pub open spec fn at_least_as_fit(a: i64, b: i64, maximize: bool) -> bool {
    if maximize {
        a >= b
    } else {
        a <= b
    }
}

/// Index, among the drawn contestants, of one whose fitness no other
/// contestant beats; the earliest such draw wins ties.
pub fn best_of(population: &Vec<TreeIndividual>, picks: &Vec<usize>, maximize: bool) -> (r: usize)
    requires
        picks@.len() >= 1,
        forall|k: int| 0 <= k < picks@.len() ==> #[trigger] picks@[k] < population@.len(),
    ensures
        exists|k: int| 0 <= k < picks@.len() && picks@[k] == r,
        forall|k: int|
            0 <= k < picks@.len() ==> at_least_as_fit(
                population@[r as int].fitness,
                population@[#[trigger] picks@[k] as int].fitness,
                maximize,
            ),
{
    let mut best: usize = picks[0];
    let mut k: usize = 1;
    while k < picks.len()
        invariant
            picks@.len() >= 1,
            forall|x: int| 0 <= x < picks@.len() ==> #[trigger] picks@[x] < population@.len(),
            1 <= k <= picks@.len(),
            exists|x: int| 0 <= x < picks@.len() && picks@[x] == best,
            best < population@.len(),
            forall|x: int|
                0 <= x < k ==> at_least_as_fit(
                    population@[best as int].fitness,
                    population@[#[trigger] picks@[x] as int].fitness,
                    maximize,
                ),
        decreases picks@.len() - k,
    {
        let c = picks[k];
        let better = if maximize {
            population[c].fitness > population[best].fitness
        } else {
            population[c].fitness < population[best].fitness
        };
        if better {
            best = c;
        }
        k = k + 1;
    }
    best
}

/// What a tournament's outcome is: some multiset of `size` drawn indices
/// into the population contains a winner `w` whose fitness no drawn
/// contestant beats under the direction, and `g` copies the winner's
/// genotype.
pub open spec fn tournament_outcome(
    population: Seq<TreeIndividual>,
    size: int,
    maximize: bool,
    g: TreeGenotype,
) -> bool {
    exists|picks: Seq<int>, w: int|
        #![trigger picks.len(), population[w].fitness]
        {
            &&& picks.len() == size
            &&& forall|k: int| 0 <= k < picks.len() ==> 0 <= #[trigger] picks[k] < population.len()
            &&& exists|k: int| 0 <= k < picks.len() && #[trigger] picks[k] == w
            &&& forall|k: int|
                0 <= k < picks.len() ==> at_least_as_fit(
                    population[w].fitness,
                    population[#[trigger] picks[k]].fitness,
                    maximize,
                )
            &&& g.spec_arena() == population[w].genotype.spec_arena()
            &&& g.spec_children() == population[w].genotype.spec_children()
        }
}

/// The tournament selector: how many contestants each tournament draws,
/// and which fitness direction wins.
pub struct TournamentSelection {
    pub tournament_size: usize,
    pub maximize: bool,
}

impl TournamentSelection {
    /// Validates and stores the tournament size and the direction of
    /// "best"; fails with `InvalidTournamentSize`, and only with it, when
    /// the size is zero.
    pub fn new(tournament_size: usize, maximize: bool) -> (r: Result<Self, GPError>)
        ensures
            match r {
                Ok(s) => {
                    &&& tournament_size >= 1
                    &&& s.tournament_size == tournament_size
                    &&& s.maximize == maximize
                },
                Err(e) => e == GPError::InvalidTournamentSize && tournament_size == 0,
            },
    {
        if tournament_size == 0 {
            return Err(GPError::InvalidTournamentSize);
        }
        Ok(TournamentSelection { tournament_size, maximize })
    }

    /// The stored tournament size.
    pub fn tournament_size(&self) -> (r: usize)
        ensures
            r == self.tournament_size,
    {
        self.tournament_size
    }

    /// Draws `tournament_size` contestants uniformly with replacement and
    /// returns a copy of the genotype of the fittest drawn one — some
    /// drawn multiset of that many indices has the result's owner as a
    /// member that no other drawn contestant beats. Fails with
    /// `EmptyPopulation`, and only with it, on an empty population.
    pub fn select<R: Rng>(&self, rng: &mut R, population: &Vec<TreeIndividual>) -> (r: Result<
        TreeGenotype,
        GPError,
    >)
        requires
            self.tournament_size >= 1,
        ensures
            match r {
                Ok(g) => {
                    &&& population@.len() > 0
                    &&& tournament_outcome(
                        population@,
                        self.tournament_size as int,
                        self.maximize,
                        g,
                    )
                    &&& exists|i: int|
                        0 <= i < population@.len() && (#[trigger] population@[i].genotype.spec_arena())
                            == g.spec_arena() && population@[i].genotype.spec_children()
                            == g.spec_children()
                },
                Err(e) => e == GPError::EmptyPopulation && population@.len() == 0,
            },
    {
        let n = population.len();
        if n == 0 {
            return Err(GPError::EmptyPopulation);
        }
        let mut picks: Vec<usize> = Vec::new();
        let mut k: usize = 0;
        while k < self.tournament_size
            invariant
                n == population@.len(),
                n > 0,
                picks@.len() == k,
                k <= self.tournament_size,
                forall|x: int| 0 <= x < picks@.len() ==> #[trigger] picks@[x] < population@.len(),
            decreases self.tournament_size - k,
        {
            picks.push(rand_index(rng, n));
            k = k + 1;
        }
        proof {
            assert(picks@.len() == self.tournament_size >= 1);
        }
        let winner = best_of(population, &picks, self.maximize);
        let g = population[winner].genotype.duplicate();
        proof {
            let drawn = Seq::new(picks@.len(), |k: int| picks@[k] as int);
            let w = winner as int;
            assert(drawn.len() == self.tournament_size as int);
            assert(forall|k: int|
                0 <= k < drawn.len() ==> 0 <= #[trigger] drawn[k] < population@.len());
            let kw = choose|k: int| 0 <= k < picks@.len() && #[trigger] picks@[k] == winner;
            assert(drawn[kw] == w);
            assert forall|k: int| 0 <= k < drawn.len() implies at_least_as_fit(
                population@[w].fitness,
                population@[#[trigger] drawn[k]].fitness,
                self.maximize,
            ) by {
                assert(picks@[k] < population@.len());
                assert(at_least_as_fit(
                    population@[winner as int].fitness,
                    population@[picks@[k] as int].fitness,
                    self.maximize,
                ));
            }
            assert(population@[w].fitness == population@[w].fitness);
            assert(tournament_outcome(
                population@,
                self.tournament_size as int,
                self.maximize,
                g,
            ));
        }
        Ok(g)
    }
}

} // verus!
