use treegp::errors::GPError;
use treegp::rng::XorShift64;
use treegp::sampler::OperatorSampler;

fn names(v: &[&str]) -> Vec<String> {
    v.iter().map(|s| s.to_string()).collect()
}

#[test]
fn mismatched_lengths_fail_before_any_sampling() {
    let r = OperatorSampler::new(names(&["+", "x"]), vec![2], vec![1, 1]);
    assert_eq!(r.err(), Some(GPError::LengthMismatch));
    let r = OperatorSampler::new(names(&["+", "x"]), vec![2, 0], vec![1]);
    assert_eq!(r.err(), Some(GPError::LengthMismatch));
}

#[test]
fn catalog_accessors_reflect_construction() {
    let s = OperatorSampler::new(names(&["+", "sin", "x"]), vec![2, 1, 0], vec![3, 2, 1]).unwrap();
    assert_eq!(s.operators(), &names(&["+", "sin", "x"]));
    assert_eq!(s.arities(), &vec![2, 1, 0]);
    assert_eq!(s.weights(), &vec![3, 2, 1]);
}

#[test]
fn update_weights_checks_length() {
    let mut s = OperatorSampler::new(names(&["+", "x"]), vec![2, 0], vec![1, 1]).unwrap();
    assert_eq!(s.update_weights(vec![5, 7]), Ok(()));
    assert_eq!(s.weights(), &vec![5, 7]);
    assert_eq!(s.update_weights(vec![1]), Err(GPError::LengthMismatch));
    assert_eq!(s.weights(), &vec![5, 7]);
}

#[test]
fn arity_of_looks_symbols_up() {
    let s = OperatorSampler::new(names(&["+", "sin", "x"]), vec![2, 1, 0], vec![1, 1, 1]).unwrap();
    assert_eq!(s.arity_of(&"+".to_string()), Ok(2));
    assert_eq!(s.arity_of(&"sin".to_string()), Ok(1));
    assert_eq!(s.arity_of(&"x".to_string()), Ok(0));
    assert_eq!(s.arity_of(&"cos".to_string()), Err(GPError::UnknownSymbol));
}

#[test]
fn empty_catalog_cannot_sample() {
    let s = OperatorSampler::new(Vec::new(), Vec::new(), Vec::new()).unwrap();
    let mut rng = XorShift64::new(1);
    assert_eq!(s.sample_any(&mut rng).err(), Some(GPError::EmptyCatalog));
}

#[test]
fn all_zero_weights_cannot_sample() {
    let s = OperatorSampler::new(names(&["+", "x"]), vec![2, 0], vec![0, 0]).unwrap();
    let mut rng = XorShift64::new(2);
    assert_eq!(s.sample_any(&mut rng).err(), Some(GPError::EmptyCatalog));
}

#[test]
fn missing_arity_reports_no_matching_arity() {
    let s = OperatorSampler::new(names(&["+", "x"]), vec![2, 0], vec![1, 1]).unwrap();
    let mut rng = XorShift64::new(3);
    assert_eq!(
        s.sample_by_arity(&mut rng, 3).err(),
        Some(GPError::NoMatchingArity)
    );
}

#[test]
fn terminal_and_function_draws_respect_arity() {
    let s = OperatorSampler::new(names(&["+", "sin", "x"]), vec![2, 1, 0], vec![1, 1, 1]).unwrap();
    let mut rng = XorShift64::new(4);
    for _ in 0..50 {
        let t = s.sample_terminal(&mut rng).unwrap();
        assert_eq!(t, "x");
        let f = s.sample_function(&mut rng).unwrap();
        assert!(f == "+" || f == "sin");
        let e = s.sample_by_arity(&mut rng, 1).unwrap();
        assert_eq!(e, "sin");
    }
}

#[test]
fn zero_weight_symbols_are_never_drawn() {
    let s = OperatorSampler::new(names(&["a", "b", "c"]), vec![0, 0, 0], vec![1, 0, 1]).unwrap();
    let mut rng = XorShift64::new(5);
    for _ in 0..200 {
        let d = s.sample_any(&mut rng).unwrap();
        assert_ne!(d, "b");
    }
}

#[test]
fn function_only_catalog_has_no_terminal() {
    let s = OperatorSampler::new(names(&["+"]), vec![2], vec![1]).unwrap();
    let mut rng = XorShift64::new(6);
    assert_eq!(s.sample_terminal(&mut rng).err(), Some(GPError::NoMatchingArity));
    assert_eq!(s.sample_function(&mut rng).unwrap(), "+");
}

#[test]
fn uniqueness_check_spots_duplicates() {
    let unique =
        OperatorSampler::new(vec!["+".to_string(), "x".to_string()], vec![2, 0], vec![1, 1])
            .unwrap();
    assert!(unique.has_unique_names());
    let doubled =
        OperatorSampler::new(vec!["+".to_string(), "+".to_string()], vec![2, 0], vec![1, 1])
            .unwrap();
    assert!(!doubled.has_unique_names());
}
