use treegp::errors::GPError;
use treegp::init::{Full, Grow};
use treegp::rng::XorShift64;
use treegp::sampler::OperatorSampler;

fn names(v: &[&str]) -> Vec<String> {
    v.iter().map(|s| s.to_string()).collect()
}

#[test]
fn inverted_band_is_rejected() {
    assert_eq!(Grow::new(3, 1).err(), Some(GPError::InvalidDepthRange));
    assert!(Grow::new(1, 3).is_ok());
    assert!(Grow::new(2, 2).is_ok());
}

#[test]
fn grow_accessors_report_band() {
    let g = Grow::new(1, 4).unwrap();
    assert_eq!(g.min_depth(), 1);
    assert_eq!(g.max_depth(), 4);
    let f = Full::new(3);
    assert_eq!(f.depth(), 3);
}

#[test]
fn full_depth_two_gives_seven_forced_nodes() {
    // One function of arity two and one terminal: every draw is forced, so
    // Full(2) must give the complete binary tree of depth two.
    let s = OperatorSampler::new(names(&["+", "x"]), vec![2, 0], vec![1, 1]).unwrap();
    let mut rng = XorShift64::new(11);
    let t = Full::new(2).initialize(&mut rng, &s).unwrap();
    assert_eq!(t.arena(), &names(&["+", "+", "x", "x", "+", "x", "x"]));
    assert_eq!(
        t.children(),
        &vec![vec![1, 4], vec![2, 3], vec![], vec![], vec![5, 6], vec![], vec![]]
    );
    assert_eq!(t.subtree_size(0), Ok(7));
}

#[test]
fn full_depth_zero_is_one_terminal() {
    let s = OperatorSampler::new(names(&["+", "x"]), vec![2, 0], vec![1, 1]).unwrap();
    let mut rng = XorShift64::new(12);
    let t = Full::new(0).initialize(&mut rng, &s).unwrap();
    assert_eq!(t.arena(), &names(&["x"]));
    assert_eq!(t.children(), &vec![Vec::<usize>::new()]);
}

#[test]
fn grown_trees_are_always_consistent() {
    let s = OperatorSampler::new(
        names(&["+", "sin", "x", "y"]),
        vec![2, 1, 0, 0],
        vec![2, 1, 2, 1],
    )
    .unwrap();
    let g = Grow::new(1, 4).unwrap();
    let mut rng = XorShift64::new(13);
    for _ in 0..40 {
        let t = g.initialize(&mut rng, &s).unwrap();
        let n = t.arena().len();
        assert!(n >= 2, "minimum depth one forces a function root");
        assert_eq!(t.subtree_size(0), Ok(n));
        // Rebuilding from the arena alone reproduces the same relation.
        let rebuilt = t.construct_children(&s).unwrap();
        assert_eq!(&rebuilt, t.children());
        // Child counts match each label's arity.
        for i in 0..n {
            let expect = s.arity_of(&t.arena()[i]).unwrap();
            assert_eq!(t.children()[i].len(), expect);
        }
    }
}

#[test]
fn full_round_trips_through_rebuild() {
    let s = OperatorSampler::new(names(&["+", "sin", "x"]), vec![2, 1, 0], vec![1, 1, 1]).unwrap();
    let f = Full::new(3);
    let mut rng = XorShift64::new(14);
    for _ in 0..20 {
        let t = f.initialize(&mut rng, &s).unwrap();
        let rebuilt = t.construct_children(&s).unwrap();
        assert_eq!(&rebuilt, t.children());
    }
}

#[test]
fn missing_terminals_fail_initialization() {
    let s = OperatorSampler::new(names(&["+"]), vec![2], vec![1]).unwrap();
    let mut rng = XorShift64::new(15);
    assert_eq!(
        Full::new(1).initialize(&mut rng, &s).err(),
        Some(GPError::NoMatchingArity)
    );
}

#[test]
fn missing_functions_fail_deep_initialization() {
    let s = OperatorSampler::new(names(&["x"]), vec![0], vec![1]).unwrap();
    let mut rng = XorShift64::new(16);
    assert_eq!(
        Grow::new(2, 3).unwrap().initialize(&mut rng, &s).err(),
        Some(GPError::NoMatchingArity)
    );
    // Depth zero needs no function at all.
    assert!(Full::new(0).initialize(&mut rng, &s).is_ok());
}

#[test]
fn empty_catalog_fails_initialization() {
    let s = OperatorSampler::new(Vec::new(), Vec::new(), Vec::new()).unwrap();
    let mut rng = XorShift64::new(17);
    assert_eq!(
        Grow::new(0, 2).unwrap().initialize(&mut rng, &s).err(),
        Some(GPError::EmptyCatalog)
    );
}
