use rustrict::{Trie, Type};

#[test]
fn thresholds() {
    assert!(Type::profane().is(Type::inappropriate()));
    assert!(Type::offensive().is(Type::inappropriate()));
    assert!(Type::sexual().is(Type::inappropriate()));
    assert!(Type::mean().intersect(Type::severe()).is(Type::inappropriate()));
    let mean_mild = Type::from_weights(&[0, 0, 0, 1, 0]);
    assert!(mean_mild.isnt(Type::inappropriate()));
    assert!(Type::evasive().isnt(Type::inappropriate()));
    assert!(Type::spam().isnt(Type::inappropriate()));
    assert!(Type::safe().isnt(Type::any()));
    assert!(Type::none().is_empty());
    assert!(!Type::profane().is_empty());
    assert_eq!(Type::default().bits, Type::inappropriate().bits);
}

#[test]
fn unions_and_intersections() {
    let both = Type::profane().union(Type::sexual());
    assert!(both.is(Type::profane()));
    assert!(both.is(Type::sexual()));
    assert!(both.isnt(Type::offensive()));
    assert!(both.intersect(Type::sexual()).isnt(Type::profane()));
}

#[test]
fn weights_exact() {
    // Weight three or more is severe, two moderate, one mild, zero nothing.
    let t = Type::from_weights(&[3, 0, 0, 1, 0]);
    assert_eq!(t.bits, 0b100 | (0b001 << 9));
    assert!(t.is(Type::profane().intersect(Type::severe())));
    assert!(t.is(Type::mean().intersect(Type::mild())));
    assert!(t.isnt(Type::offensive()));
    assert!(t.isnt(Type::spam()));
    assert!(t.isnt(Type::safe()));

    let all = Type::from_weights(&[1, 2, 3, 4, 0]);
    assert_eq!(all.bits, 0b001 | (0b010 << 3) | (0b100 << 6) | (0b100 << 9));
}

#[test]
fn weights_round_trip() {
    // On its one-hot domain the weight mapping round-trips exactly.
    for w0 in 0..4i8 {
        for w1 in 0..4i8 {
            let weights = [w0, w1, 0, 2, 3];
            assert_eq!(Type::from_weights(&weights).to_weights(), weights);
        }
    }
}

#[test]
fn trie_paths() {
    let mut t = Trie::new();
    t.add(&"An".chars().collect(), Type::safe());
    t.add(&"ant".chars().collect(), Type::none());
    let root = t.root();
    let n1 = t.child_of(root, 'a').expect("edge for a");
    let n2 = t.child_of(n1, 'n').expect("edge for n");
    assert!(t.nodes[n2].word);
    assert_eq!(t.nodes[n2].typ.bits, Type::safe().bits);
    let n3 = t.child_of(n2, 't').expect("edge for t");
    assert!(t.nodes[n3].word);
    assert_eq!(t.nodes[n3].typ.bits, 0);
    assert!(t.child_of(root, 'b').is_none());

    // Adding the same phrase again ORs the types together.
    t.add(&"an".chars().collect(), Type::profane());
    assert_eq!(t.nodes[n2].typ.bits, Type::safe().union(Type::profane()).bits);
}
