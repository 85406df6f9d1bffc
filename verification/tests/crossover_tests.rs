use treegp::crossover::SubtreeCrossover;
use treegp::errors::GPError;
use treegp::init::{Full, Grow};
use treegp::rng::{XorShift64, PROB_ONE};
use treegp::sampler::OperatorSampler;

fn names(v: &[&str]) -> Vec<String> {
    v.iter().map(|s| s.to_string()).collect()
}

fn arith_sampler() -> OperatorSampler {
    OperatorSampler::new(
        names(&["+", "sin", "x", "y"]),
        vec![2, 1, 0, 0],
        vec![2, 1, 2, 1],
    )
    .unwrap()
}

#[test]
fn overlong_probability_is_rejected() {
    assert_eq!(
        SubtreeCrossover::new(PROB_ONE + 1).err(),
        Some(GPError::InvalidProbability)
    );
    assert_eq!(SubtreeCrossover::new(PROB_ONE).unwrap().probability(), PROB_ONE);
    assert_eq!(SubtreeCrossover::default().probability(), PROB_ONE);
}

#[test]
fn certain_crossover_conserves_total_node_count() {
    let s = arith_sampler();
    let xo = SubtreeCrossover::new(PROB_ONE).unwrap();
    let g = Grow::new(1, 4).unwrap();
    let mut rng = XorShift64::new(21);
    for _ in 0..40 {
        let p1 = g.initialize(&mut rng, &s).unwrap();
        let p2 = g.initialize(&mut rng, &s).unwrap();
        let total = p1.arena().len() + p2.arena().len();
        let (c1, c2) = xo.variate(&mut rng, &p1, &p2, &s);
        assert_eq!(c1.arena().len() + c2.arena().len(), total);
        // Both children are valid trees again.
        assert_eq!(c1.subtree_size(0), Ok(c1.arena().len()));
        assert_eq!(c2.subtree_size(0), Ok(c2.arena().len()));
        assert_eq!(&c1.construct_children(&s).unwrap(), c1.children());
        assert_eq!(&c2.construct_children(&s).unwrap(), c2.children());
    }
}

#[test]
fn impossible_crossover_passes_parents_through() {
    let s = arith_sampler();
    let xo = SubtreeCrossover::new(0).unwrap();
    let f = Full::new(2);
    let mut rng = XorShift64::new(22);
    let p1 = f.initialize(&mut rng, &s).unwrap();
    let p2 = f.initialize(&mut rng, &s).unwrap();
    let (c1, c2) = xo.variate(&mut rng, &p1, &p2, &s);
    assert_eq!(c1, p1);
    assert_eq!(c2, p2);
}

#[test]
fn single_node_parents_swap_wholly() {
    let s = arith_sampler();
    let xo = SubtreeCrossover::new(PROB_ONE).unwrap();
    let f = Full::new(0);
    let mut rng = XorShift64::new(23);
    let p1 = f.initialize(&mut rng, &s).unwrap();
    let p2 = f.initialize(&mut rng, &s).unwrap();
    let (c1, c2) = xo.variate(&mut rng, &p1, &p2, &s);
    // With one node each, the only cut swaps the roots.
    assert_eq!(c1, p2);
    assert_eq!(c2, p1);
}
