use treegp::errors::GPError;
use treegp::sampler::OperatorSampler;
use treegp::tree::TreeGenotype;

fn names(v: &[&str]) -> Vec<String> {
    v.iter().map(|s| s.to_string()).collect()
}

fn arith_sampler() -> OperatorSampler {
    OperatorSampler::new(names(&["+", "sin", "x"]), vec![2, 1, 0], vec![1, 1, 1]).unwrap()
}

#[test]
fn root_subtree_is_whole_tree() {
    let t = TreeGenotype::new(
        names(&["+", "x", "sin", "x"]),
        vec![vec![1, 2], vec![], vec![3], vec![]],
    );
    assert_eq!(t.subtree_size(0), Ok(4));
    assert_eq!(t.subtree_size(1), Ok(1));
    assert_eq!(t.subtree_size(2), Ok(2));
    assert_eq!(t.subtree_size(3), Ok(1));
}

#[test]
fn out_of_range_index_is_rejected() {
    let t = TreeGenotype::new(names(&["x"]), vec![vec![]]);
    assert_eq!(t.subtree_size(0), Ok(1));
    assert_eq!(t.subtree_size(1), Err(GPError::IndexOutOfBounds));
    assert_eq!(t.subtree_size(100), Err(GPError::IndexOutOfBounds));
}

#[test]
fn construct_children_decomposes_preorder() {
    let s = arith_sampler();
    let t = TreeGenotype::with_arena(names(&["+", "+", "x", "x", "sin", "x"]));
    let ch = t.construct_children(&s).unwrap();
    assert_eq!(
        ch,
        vec![vec![1, 4], vec![2, 3], vec![], vec![], vec![5], vec![]]
    );
}

#[test]
fn rebuild_matches_handmade_relation() {
    let s = arith_sampler();
    let handmade = TreeGenotype::new(
        names(&["+", "sin", "x", "x"]),
        vec![vec![1, 3], vec![2], vec![], vec![]],
    );
    let mut rebuilt = TreeGenotype::with_arena(names(&["+", "sin", "x", "x"]));
    rebuilt.rebuild_children_from_arena(&s).unwrap();
    assert_eq!(rebuilt, handmade);
}

#[test]
fn short_arena_is_malformed() {
    let s = arith_sampler();
    let t = TreeGenotype::with_arena(names(&["+", "x"]));
    assert_eq!(t.construct_children(&s).err(), Some(GPError::MalformedArena));
}

#[test]
fn trailing_nodes_are_malformed() {
    let s = arith_sampler();
    let t = TreeGenotype::with_arena(names(&["x", "x"]));
    assert_eq!(t.construct_children(&s).err(), Some(GPError::MalformedArena));
}

#[test]
fn empty_arena_is_malformed() {
    let s = arith_sampler();
    let t = TreeGenotype::with_arena(Vec::new());
    assert_eq!(t.construct_children(&s).err(), Some(GPError::MalformedArena));
}

#[test]
fn unknown_label_is_rejected() {
    let s = arith_sampler();
    let t = TreeGenotype::with_arena(names(&["+", "x", "unknown"]));
    assert_eq!(t.construct_children(&s).err(), Some(GPError::UnknownSymbol));
}

#[test]
fn numeric_literals_are_terminals() {
    let s = arith_sampler();
    let t = TreeGenotype::with_arena(names(&["+", "3", "-17"]));
    let ch = t.construct_children(&s).unwrap();
    assert_eq!(ch, vec![vec![1, 2], vec![], vec![]]);
}

#[test]
fn failed_rebuild_leaves_genotype_unchanged() {
    let s = arith_sampler();
    let mut t = TreeGenotype::new(names(&["+", "x"]), vec![vec![1], vec![]]);
    let before = TreeGenotype::new(names(&["+", "x"]), vec![vec![1], vec![]]);
    assert_eq!(
        t.rebuild_children_from_arena(&s).err(),
        Some(GPError::MalformedArena)
    );
    assert_eq!(t, before);
}

#[test]
fn accessors_expose_parts() {
    let t = TreeGenotype::new(names(&["sin", "x"]), vec![vec![1], vec![]]);
    assert_eq!(t.arena(), &names(&["sin", "x"]));
    assert_eq!(t.children(), &vec![vec![1], vec![]]);
    let d = t.duplicate();
    assert_eq!(d, t);
}

#[test]
fn consistency_checker_agrees_with_invariants() {
    let s = arith_sampler();
    let good = TreeGenotype::new(
        names(&["+", "x", "sin", "x"]),
        vec![vec![1, 2], vec![], vec![3], vec![]],
    );
    assert!(good.is_consistent(&s));
    // Children out of pre-order.
    let reordered = TreeGenotype::new(
        names(&["+", "x", "sin", "x"]),
        vec![vec![2, 1], vec![], vec![3], vec![]],
    );
    assert!(!reordered.is_consistent(&s));
    // A function node without its children.
    let starved = TreeGenotype::new(names(&["sin"]), vec![vec![]]);
    assert!(!starved.is_consistent(&s));
    // Unknown label.
    let alien = TreeGenotype::new(names(&["wat"]), vec![vec![]]);
    assert!(!alien.is_consistent(&s));
    // Missing children entries altogether.
    let bare = TreeGenotype::new(names(&["+", "x", "x"]), vec![]);
    assert!(!bare.is_consistent(&s));
}

#[test]
fn unknown_labels_outrank_malformedness() {
    // Label problems are reported before decomposition problems: this
    // arena is both undecomposable and holds an unknown label the
    // pre-order walk would never reach.
    let s = arith_sampler();
    let t = TreeGenotype::with_arena(names(&["x", "wat"]));
    assert_eq!(t.construct_children(&s).err(), Some(GPError::UnknownSymbol));
}
