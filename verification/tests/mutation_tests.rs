use treegp::errors::GPError;
use treegp::init::Grow;
use treegp::mutation::{ConstantMutation, PointMutation, SizeFairMutation, SubtreeMutation};
use treegp::rng::{XorShift64, PROB_ONE};
use treegp::sampler::OperatorSampler;
use treegp::tree::TreeGenotype;

fn names(v: &[&str]) -> Vec<String> {
    v.iter().map(|s| s.to_string()).collect()
}

fn arith_sampler() -> OperatorSampler {
    OperatorSampler::new(
        names(&["+", "*", "sin", "x", "y"]),
        vec![2, 2, 1, 0, 0],
        vec![2, 2, 1, 2, 1],
    )
    .unwrap()
}

#[test]
fn subtree_mutation_validates_eagerly() {
    assert_eq!(
        SubtreeMutation::new(PROB_ONE + 1, (0, 2)).err(),
        Some(GPError::InvalidProbability)
    );
    assert_eq!(
        SubtreeMutation::new(PROB_ONE, (3, 2)).err(),
        Some(GPError::InvalidDepthRange)
    );
    let m = SubtreeMutation::new(PROB_ONE / 2, (1, 3)).unwrap();
    assert_eq!(m.probability(), PROB_ONE / 2);
    assert_eq!(m.depth_limits(), (1, 3));
    assert_eq!(SubtreeMutation::default().depth_limits(), (1, 2));
}

#[test]
fn subtree_mutation_keeps_trees_valid() {
    let s = arith_sampler();
    let g = Grow::new(1, 4).unwrap();
    let m = SubtreeMutation::new(PROB_ONE, (0, 2)).unwrap();
    let mut rng = XorShift64::new(31);
    for _ in 0..40 {
        let t = g.initialize(&mut rng, &s).unwrap();
        let mutated = m.variate(&mut rng, &t, &s).unwrap();
        assert_eq!(mutated.subtree_size(0), Ok(mutated.arena().len()));
        assert_eq!(&mutated.construct_children(&s).unwrap(), mutated.children());
    }
}

#[test]
fn silent_subtree_mutation_copies_input() {
    let s = arith_sampler();
    let g = Grow::new(1, 3).unwrap();
    let m = SubtreeMutation::new(0, (0, 2)).unwrap();
    let mut rng = XorShift64::new(32);
    let t = g.initialize(&mut rng, &s).unwrap();
    let out = m.variate(&mut rng, &t, &s).unwrap();
    assert_eq!(out, t);
}

#[test]
fn size_fair_mutation_keeps_trees_valid() {
    let s = arith_sampler();
    let g = Grow::new(1, 4).unwrap();
    let mut rng = XorShift64::new(33);
    for dynamic in [false, true] {
        let m = SizeFairMutation::new(PROB_ONE, dynamic).unwrap();
        for _ in 0..25 {
            let t = g.initialize(&mut rng, &s).unwrap();
            let mutated = m.variate(&mut rng, &t, &s).unwrap();
            assert_eq!(mutated.subtree_size(0), Ok(mutated.arena().len()));
            assert_eq!(&mutated.construct_children(&s).unwrap(), mutated.children());
        }
    }
    assert_eq!(
        SizeFairMutation::new(PROB_ONE + 7, true).err(),
        Some(GPError::InvalidProbability)
    );
}

#[test]
fn point_mutation_never_touches_shape() {
    let s = arith_sampler();
    let g = Grow::new(1, 4).unwrap();
    let m = PointMutation::new(PROB_ONE).unwrap();
    let mut rng = XorShift64::new(34);
    for _ in 0..40 {
        let t = g.initialize(&mut rng, &s).unwrap();
        let mutated = m.variate(&mut rng, &t, &s);
        assert_eq!(mutated.arena().len(), t.arena().len());
        assert_eq!(mutated.children(), t.children());
        // Arities still line up label by label.
        for i in 0..mutated.arena().len() {
            assert_eq!(
                s.arity_of(&mutated.arena()[i]).unwrap(),
                mutated.children()[i].len()
            );
        }
    }
}

#[test]
fn point_mutation_with_lone_symbols_changes_nothing() {
    // Only one symbol of each arity: redrawing a label must return it.
    let s = OperatorSampler::new(names(&["+", "x"]), vec![2, 0], vec![1, 1]).unwrap();
    let t = TreeGenotype::new(
        names(&["+", "x", "x"]),
        vec![vec![1, 2], vec![], vec![]],
    );
    let m = PointMutation::new(PROB_ONE).unwrap();
    let mut rng = XorShift64::new(35);
    let mutated = m.variate(&mut rng, &t, &s);
    assert_eq!(mutated, t);
}

#[test]
fn point_mutation_probability_zero_is_identity() {
    let s = arith_sampler();
    let t = TreeGenotype::new(names(&["sin", "x"]), vec![vec![1], vec![]]);
    let m = PointMutation::new(0).unwrap();
    let mut rng = XorShift64::new(36);
    assert_eq!(m.variate(&mut rng, &t, &s), t);
    assert_eq!(
        PointMutation::new(PROB_ONE + 1).err(),
        Some(GPError::InvalidProbability)
    );
}

#[test]
fn constant_mutation_validates_eagerly() {
    assert_eq!(
        ConstantMutation::new(PROB_ONE + 1, 1, None).err(),
        Some(GPError::InvalidProbability)
    );
    assert_eq!(
        ConstantMutation::new(PROB_ONE, -1, None).err(),
        Some(GPError::InvalidMutationRate)
    );
    assert_eq!(
        ConstantMutation::new(PROB_ONE, 1, Some((5, -5))).err(),
        Some(GPError::InvalidRange)
    );
    let m = ConstantMutation::default();
    assert_eq!(m.probability(), PROB_ONE);
}

#[test]
fn constant_mutation_clamps_into_range() {
    let t = TreeGenotype::new(
        names(&["+", "100", "-100"]),
        vec![vec![1, 2], vec![], vec![]],
    );
    let m = ConstantMutation::new(PROB_ONE, 1000, Some((-5, 5))).unwrap();
    let mut rng = XorShift64::new(37);
    for _ in 0..50 {
        let mutated = m.variate(&mut rng, &t);
        assert_eq!(mutated.children(), t.children());
        assert_eq!(mutated.arena()[0], "+");
        for i in 1..3 {
            let v: i64 = mutated.arena()[i].parse().unwrap();
            assert!((-5..=5).contains(&v), "value {} escaped the range", v);
        }
    }
}

#[test]
fn constant_mutation_leaves_symbols_alone() {
    let t = TreeGenotype::new(
        names(&["sin", "x"]),
        vec![vec![1], vec![]],
    );
    let m = ConstantMutation::new(PROB_ONE, 50, None).unwrap();
    let mut rng = XorShift64::new(38);
    let mutated = m.variate(&mut rng, &t);
    assert_eq!(mutated, t);
}

#[test]
fn constant_mutation_moves_by_at_most_the_rate() {
    let t = TreeGenotype::new(names(&["0"]), vec![vec![]]);
    let m = ConstantMutation::new(PROB_ONE, 3, None).unwrap();
    let mut rng = XorShift64::new(39);
    for _ in 0..100 {
        let mutated = m.variate(&mut rng, &t);
        let v: i64 = mutated.arena()[0].parse().unwrap();
        assert!((-3..=3).contains(&v), "offset {} larger than the rate", v);
    }
}
