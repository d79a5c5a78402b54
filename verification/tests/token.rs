use markovish::token::{TokenPair, TokenPairRef};

#[test]
fn equivalent_token_pair_with_ref() {
    let tp_ref: TokenPairRef = ("hello", "there");
    let tp = TokenPair::new("hello", "there");
    assert_eq!(tp, tp_ref);
    assert_eq!(tp, &tp_ref);
    assert_eq!(&tp, &tp_ref);
}

#[test]
fn token_pair_differs_from_other_ref() {
    let tp = TokenPair::new("hello", "there");
    let swapped: TokenPairRef = ("there", "hello");
    let left_only: TokenPairRef = ("hello", "hello");
    let right_only: TokenPairRef = ("there", "there");
    assert_ne!(tp, swapped);
    assert_ne!(tp, left_only);
    assert_ne!(tp, right_only);
    assert_ne!(tp, &swapped);
}

#[test]
fn token_pair_round_trip() {
    let tp_ref: TokenPairRef = ("I", " ");
    let tp = TokenPair::from(&tp_ref);
    assert_eq!(tp.0, "I");
    assert_eq!(tp.1, " ");
    assert_eq!(tp.as_ref(), tp_ref);
    assert_eq!(tp, TokenPair::new("I", " "));
}

#[test]
fn token_pair_clone_and_order() {
    let tp = TokenPair::new("b", "a");
    let copy = tp.clone();
    assert_eq!(tp, copy);
    assert!(TokenPair::new("a", "z") < tp);
    assert!(TokenPair::new("b", "b") > tp);
}
