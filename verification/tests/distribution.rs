use markovish::distribution::{TokenDistribution, TokenDistributionBuilder};
use rand::rngs::StdRng;
use rand::SeedableRng;

#[test]
fn a_single_choice_is_always_drawn() {
    let mut builder = TokenDistribution::builder();
    builder.add_token("only");
    builder.add_token("only");
    assert!(builder.can_build());
    let dist = builder.build();
    let mut rng = StdRng::seed_from_u64(1);
    for _ in 0..50 {
        assert_eq!(dist.get_random_token(&mut rng), "only");
    }
}

#[test]
fn an_empty_builder_cannot_be_built() {
    assert!(!TokenDistributionBuilder::new().can_build());
    assert!(!TokenDistributionBuilder::default().can_build());
}

#[test]
fn each_choice_is_drawn_as_often_as_its_count_says() {
    let mut builder = TokenDistributionBuilder::new();
    for _ in 0..3 {
        builder.add_token("a");
    }
    builder.add_token("b");
    for _ in 0..4 {
        builder.add_token("c");
    }
    builder.add_token("a");
    let dist = builder.build();
    let mut rng = StdRng::seed_from_u64(2);
    let draws = 80_000;
    let (mut a, mut b, mut c) = (0, 0, 0);
    for _ in 0..draws {
        match dist.get_random_token(&mut rng).as_str() {
            "a" => a += 1,
            "b" => b += 1,
            "c" => c += 1,
            other => panic!("never added: {}", other),
        }
    }
    // counts 4, 1, 4 of 9
    assert!((a as f64 / draws as f64 - 4.0 / 9.0).abs() < 0.01);
    assert!((b as f64 / draws as f64 - 1.0 / 9.0).abs() < 0.01);
    assert!((c as f64 / draws as f64 - 4.0 / 9.0).abs() < 0.01);
}

#[test]
fn a_cloned_builder_counts_apart_from_the_first() {
    let mut first = TokenDistributionBuilder::new();
    first.add_token("a");
    let mut second = first.clone();
    second.add_token("b");
    let first = first.build();
    let second = second.build().clone();
    let mut rng = StdRng::seed_from_u64(3);
    let mut seen_b = false;
    for _ in 0..100 {
        assert_eq!(first.get_random_token(&mut rng), "a");
        match second.get_random_token(&mut rng).as_str() {
            "a" => {}
            "b" => seen_b = true,
            other => panic!("never added: {}", other),
        }
    }
    assert!(seen_b);
}
