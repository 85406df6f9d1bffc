use treegp::errors::GPError;
use treegp::individual::TreeIndividual;
use treegp::rng::XorShift64;
use treegp::select::{best_of, TournamentSelection};
use treegp::tree::TreeGenotype;

fn names(v: &[&str]) -> Vec<String> {
    v.iter().map(|s| s.to_string()).collect()
}

fn leaf(label: &str) -> TreeGenotype {
    TreeGenotype::new(names(&[label]), vec![vec![]])
}

fn population(fitness: &[i64]) -> Vec<TreeIndividual> {
    fitness
        .iter()
        .enumerate()
        .map(|(i, f)| TreeIndividual::new(leaf(&format!("g{}", i)), *f))
        .collect()
}

#[test]
fn zero_tournament_size_is_rejected() {
    assert_eq!(
        TournamentSelection::new(0, true).err(),
        Some(GPError::InvalidTournamentSize)
    );
    let s = TournamentSelection::new(3, true).unwrap();
    assert_eq!(s.tournament_size(), 3);
}

#[test]
fn empty_population_cannot_select() {
    let s = TournamentSelection::new(2, true).unwrap();
    let mut rng = XorShift64::new(41);
    assert_eq!(
        s.select(&mut rng, &Vec::new()).err(),
        Some(GPError::EmptyPopulation)
    );
}

#[test]
fn best_of_picks_the_fittest_draw() {
    let pop = population(&[5, 9, 1, 9]);
    let picks = vec![0, 1, 2, 3];
    assert_eq!(best_of(&pop, &picks, true), 1, "earliest of the tied best");
    assert_eq!(best_of(&pop, &picks, false), 2);
    assert_eq!(best_of(&pop, &vec![0, 2], true), 0);
    assert_eq!(best_of(&pop, &vec![3, 3, 3], false), 3);
}

#[test]
fn singleton_population_always_wins() {
    let pop = population(&[7]);
    let s = TournamentSelection::new(4, true).unwrap();
    let mut rng = XorShift64::new(42);
    for _ in 0..20 {
        let g = s.select(&mut rng, &pop).unwrap();
        assert_eq!(&g, pop[0].genotype());
    }
}

#[test]
fn full_size_tournaments_concentrate_on_the_best() {
    // Population sorted by fitness, tournament as large as the population:
    // the best individual wins every tournament it is drawn into, so over
    // many repetitions its genotype dominates the returns.
    let pop = population(&[10, 20, 30, 40, 50, 60, 70, 80]);
    let s = TournamentSelection::new(pop.len(), true).unwrap();
    let mut rng = XorShift64::new(43);
    let trials = 400;
    let mut best_wins = 0;
    for _ in 0..trials {
        let g = s.select(&mut rng, &pop).unwrap();
        if &g == pop[7].genotype() {
            best_wins += 1;
        }
    }
    // The best is drawn into a tournament with probability
    // 1 - (7/8)^8, about 0.66; demand a clear majority.
    assert!(
        best_wins * 2 > trials,
        "best won only {} of {} tournaments",
        best_wins,
        trials
    );
}

#[test]
fn minimizing_selector_prefers_low_fitness() {
    let pop = population(&[3, -8, 5]);
    let s = TournamentSelection::new(pop.len() * 4, false).unwrap();
    let mut rng = XorShift64::new(44);
    let mut low_wins = 0;
    for _ in 0..100 {
        let g = s.select(&mut rng, &pop).unwrap();
        if &g == pop[1].genotype() {
            low_wins += 1;
        }
    }
    assert!(low_wins > 90, "low fitness won only {} times", low_wins);
}

#[test]
fn from_vecs_pairs_by_position() {
    let genos = vec![leaf("a"), leaf("b")];
    let inds = TreeIndividual::from_vecs(&genos, &vec![1, 2]).unwrap();
    assert_eq!(inds.len(), 2);
    assert_eq!(inds[0].genotype(), &genos[0]);
    assert_eq!(inds[0].fitness(), 1);
    assert_eq!(inds[1].genotype(), &genos[1]);
    assert_eq!(inds[1].fitness(), 2);
}

#[test]
fn from_vecs_checks_lengths() {
    let genos = vec![leaf("a"), leaf("b")];
    assert_eq!(
        TreeIndividual::from_vecs(&genos, &vec![1]).err(),
        Some(GPError::LengthMismatch)
    );
}
