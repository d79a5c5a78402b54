use markovish::chain::{AddedPair, FeedResult, UpdatedChainBuilder};
use markovish::distribution::TokenDistribution;
use markovish::token::TokenPair;
use markovish::{Chain, ChainBuilder, IntoChainBuilder};
use rand::rngs::StdRng;
use rand::{Rng, SeedableRng};
use std::collections::{BTreeMap, BTreeSet};

fn rng() -> StdRng {
    StdRng::seed_from_u64(0x5eed)
}

#[test]
#[should_panic]
fn empty_chain_builder_panics() {
    let _ = Chain::builder().build().unwrap();
}

#[test]
#[should_panic]
fn empty_token_dist_builder_panics() {
    let _ = TokenDistribution::builder().build();
}

#[test]
fn feed_too_few_tokens() {
    // Only 2, we need three
    let s = "I ";
    assert!(Chain::builder().feed_str(s).is_err());
}

#[test]
fn simple_single_possible_token() {
    let s = "I am";
    let cb = Chain::builder().feed_str(s).into_cb();
    let chain = cb.build().unwrap();
    assert_eq!(
        chain.generate_next_token(&mut rng(), &("I", " ")).unwrap(),
        "am"
    );
}

#[test]
fn simple_single_impossible_token() {
    let s = "I am";
    let cb = Chain::builder().feed_str(s).into_cb();
    let chain = cb.build().unwrap();
    assert!(chain
        .generate_next_token(&mut rng(), &("You", " "))
        .is_none());
}

#[test]
fn simple_generate_max_n_tokens() {
    let s = "I am-full!of?cats";
    let cb = Chain::builder().feed_str(s).into_cb();
    let chain = cb.build().unwrap();

    assert_eq!(
        chain
            .generate_max_n_tokens(&mut rng(), &("I", " "), 7)
            .unwrap(),
        vec!["am", "-", "full", "!", "of", "?", "cats"],
    );

    // Now with an actual limit
    assert_eq!(
        chain
            .generate_max_n_tokens(&mut rng(), &("I", " "), 2)
            .unwrap(),
        vec!["am", "-"],
    );

    // Now with extra
    assert_eq!(
        chain
            .generate_max_n_tokens(&mut rng(), &("I", " "), 13)
            .unwrap()
            .len(),
        7
    );
}

#[test]
fn simple_generate_n_tokens() {
    let s = "I am-full!of?cats";
    let cb = Chain::builder().feed_str(s).into_cb();
    let chain = cb.build().unwrap();
    assert_eq!(
        chain.generate_n_tokens(&mut rng(), &("I", " "), 7).unwrap(),
        vec!["am", "-", "full", "!", "of", "?", "cats"],
    );

    // Now with an actual limit
    assert_eq!(
        chain.generate_n_tokens(&mut rng(), &("I", " "), 2).unwrap(),
        vec!["am", "-"],
    );

    // Now with extra
    assert_eq!(
        chain
            .generate_n_tokens(&mut rng(), &("I", " "), 13)
            .unwrap()
            .len(),
        13
    );

    // Exactly on the line, so only one of the new start tokens should be taken
    assert_eq!(
        chain
            .generate_n_tokens(&mut rng(), &("I", " "), 8)
            .unwrap()
            .len(),
        8
    );
}

#[test]
fn simple_generate_max_n_tokens_zero() {
    let s = "I am-full!of?cats";
    let cb = Chain::builder().feed_str(s).into_cb();
    let chain = cb.build().unwrap();
    assert!(chain
        .generate_max_n_tokens(&mut rng(), &("I", " "), 0)
        .unwrap()
        .is_empty())
}

#[test]
fn simple_generate_max_n_tokens_impossible_first() {
    let s = "I am-full!of?cats";
    let cb = Chain::builder().feed_str(s).into_cb();
    let chain = cb.build().unwrap();
    assert!(chain
        .generate_max_n_tokens(&mut rng(), &("You", " "), 13)
        .is_none())
}

#[test]
fn simple_generate_n_tokens_zero() {
    let s = "I am-full!of?cats";
    let cb = Chain::builder().feed_str(s).into_cb();
    let chain = cb.build().unwrap();
    assert!(chain
        .generate_n_tokens(&mut rng(), &("I", " "), 0)
        .unwrap()
        .is_empty())
}

#[test]
fn simple_generate_n_tokens_impossible_first() {
    let s = "I am-full!of?cats";
    let cb = Chain::builder().feed_str(s).into_cb();
    let chain = cb.build().unwrap();
    assert!(chain
        .generate_n_tokens(&mut rng(), &("You", " "), 13)
        .is_none())
}

#[test]
fn generate_long_from_start_tokens() {
    // Nice output from fortune
    let s = r#"
Coach: How's it going, Norm?
Norm:  Daddy's rich and Momma's good lookin'.
                -- Cheers, Truce or Consequences

Sam:   What's up, Norm?
Norm:  My nipples.  It's freezing out there.
                -- Cheers, Coach Returns to Action

Coach: What's the story, Norm?
Norm:  Thirsty guy walks into a bar.  You finish it.
                -- Cheers, Endless Slumper
"#;
    let cb = Chain::builder().feed_str(s).into_cb();
    let chain = cb.build().unwrap();
    let mut rng = rng();
    for _ in 0..100 {
        let start = chain.start_tokens(&mut rng).unwrap();
        let _ = chain.generate_n_tokens(&mut rng, &start.as_ref(), 100);
    }
}

#[test]
fn generate_long_using_generate_str() {
    let s = r#"
The difference between a program and a script isn't as subtle as most people
think. A script is interpreted, and a program is compiled.

Of course, there's no reason you can't write a compiler that immediately
executes the compiled form of a program without writing compilation artifacts
to disk, but that's an implementation detail, and precision in technical
matters is important.

Though Perl 5, for example, doesn't write out the artifacts of compilation to
disk and Java and .Net do, Perl 5 is clearly an interpreter even though it
evaluates the compiled form of code in the same way that the JVM and the CLR
do. Why? Because it's a scripting language.

Okay, that's a facetious explanation.

The difference between a program and a script is if there's native compilation
available in at least one widely-used implementation. Thus Java before the
prevalence of even the HotSpot JVM and its JIT was a scripting language and
now it's a programming language, except that you can write a C interpreter
that doesn't have a JIT and C programs become scripts.

    -- chromatic
    -- "Program vs. Script" ( http://use.perl.org/~chromatic/journal/35804 )
        "#;

    let chain = Chain::from_text(s).unwrap();
    for _ in 0..100 {
        chain.generate_str(&mut rng(), 100).unwrap();
    }
}

#[test]
fn get_pairs() {
    let s = r#"
This is a text.
There are many like it, but this one is mine.
        -- Unknown
        "#;
    let chain = Chain::from_text(s).unwrap();
    let good_starting_points: Vec<_> = chain
        .pairs()
        .iter()
        .filter(|tp| tp.0.as_str() == "\n")
        .collect();
    assert_eq!(good_starting_points.len(), 3);
}

#[test]
fn feed_stats() {
    let cb = ChainBuilder::new();

    // `end` is never in a TokenPair, it's just added to ("hi", "hi")
    let tokens: Vec<&str> = "hi hi what hi hi end".split_whitespace().collect();
    let ucb = cb.feed_tokens(&tokens).unwrap();

    assert_eq!(ucb.new_pairs, 3);
    assert_eq!(ucb.updated_pairs, 1, "hi hi should be updated once");
}

// What a builder learns.

#[test]
fn feed_str_splits_on_word_bounds() {
    // "I am" is the three tokens "I", " " and "am": one pair, one observation
    let ucb = Chain::builder().feed_str("I am").unwrap();
    assert_eq!(ucb.new_pairs, 1);
    assert_eq!(ucb.updated_pairs, 0);
    let chain = ucb.into_cb().build().unwrap();
    assert_eq!(chain.pairs().to_vec(), vec![TokenPair::new("I", " ")]);
    for _ in 0..20 {
        assert_eq!(
            chain.generate_next_token(&mut rng(), &("I", " ")),
            Some("am")
        );
    }
    assert_eq!(chain.generate_next_token(&mut rng(), &("You", " ")), None);
    assert_eq!(chain.generate_next_token(&mut rng(), &("I", "am")), None);
    assert_eq!(chain.generate_next_token(&mut rng(), &(" ", "am")), None);
}

#[test]
fn pairs_come_in_the_order_first_seen() {
    let chain = Chain::from_text("I am-full!of?cats").unwrap();
    let expected = vec![
        TokenPair::new("I", " "),
        TokenPair::new(" ", "am"),
        TokenPair::new("am", "-"),
        TokenPair::new("-", "full"),
        TokenPair::new("full", "!"),
        TokenPair::new("!", "of"),
        TokenPair::new("of", "?"),
    ];
    assert_eq!(chain.pairs().to_vec(), expected);
}

#[test]
fn add_occurance_tells_new_from_updated() {
    let mut cb = ChainBuilder::new();
    assert_eq!(cb.add_occurance(&("a", "b"), "c"), AddedPair::New);
    assert_eq!(cb.add_occurance(&("a", "b"), "c"), AddedPair::Updated);
    assert_eq!(cb.add_occurance(&("a", "b"), "d"), AddedPair::Updated);
    assert_eq!(cb.add_occurance(&("b", "a"), "c"), AddedPair::New);
    let chain = cb.build().unwrap();
    assert_eq!(
        chain.pairs().to_vec(),
        vec![TokenPair::new("a", "b"), TokenPair::new("b", "a")]
    );
}

#[test]
fn every_context_has_exactly_the_tokens_seen_behind_it() {
    let tokens = ["a", "b", "c", "a", "b", "d", "a", "b"];
    let chain = ChainBuilder::new()
        .feed_tokens(&tokens)
        .into_cb()
        .build()
        .unwrap();
    let mut rng = rng();
    let mut seen_c = false;
    let mut seen_d = false;
    for _ in 0..200 {
        match chain.generate_next_token(&mut rng, &("a", "b")) {
            Some("c") => seen_c = true,
            Some("d") => seen_d = true,
            other => panic!("not seen behind (a, b): {:?}", other),
        }
    }
    assert!(seen_c && seen_d);
    for _ in 0..20 {
        assert_eq!(chain.generate_next_token(&mut rng, &("b", "c")), Some("a"));
        assert_eq!(chain.generate_next_token(&mut rng, &("c", "a")), Some("b"));
        assert_eq!(chain.generate_next_token(&mut rng, &("b", "d")), Some("a"));
        assert_eq!(chain.generate_next_token(&mut rng, &("d", "a")), Some("b"));
    }
    assert_eq!(chain.pairs().len(), 5);
}

#[test]
fn unseen_context_gives_no_token() {
    let tokens = ["a", "b", "c", "d"];
    let chain = ChainBuilder::new()
        .feed_tokens(&tokens)
        .into_cb()
        .build()
        .unwrap();
    let mut rng = rng();
    // the last two tokens were never followed by anything
    assert_eq!(chain.generate_next_token(&mut rng, &("c", "d")), None);
    assert_eq!(chain.generate_next_token(&mut rng, &("b", "a")), None);
    assert_eq!(chain.generate_next_token(&mut rng, &("", "")), None);
    assert_eq!(chain.generate_next_token(&mut rng, &("a", "b")), Some("c"));
}

#[test]
fn feed_tokens_with_too_few_returns_the_builder_as_it_was() {
    let fed: FeedResult = ChainBuilder::new().feed_tokens(&["a", "b", "c"]);
    let cb = fed.into_cb();
    let fed: FeedResult = cb.feed_tokens(&["x", "y"]);
    assert!(fed.is_err());
    let cb = fed.into_cb();
    let fed: FeedResult = cb.feed_tokens(&[]);
    assert!(fed.is_err());
    let chain = fed.into_cb().build().unwrap();
    assert_eq!(chain.pairs().to_vec(), vec![TokenPair::new("a", "b")]);
    assert_eq!(
        chain.generate_next_token(&mut rng(), &("a", "b")),
        Some("c")
    );
}

#[test]
fn feeding_twice_adds_up() {
    let first: UpdatedChainBuilder = ChainBuilder::new().feed_tokens(&["a", "b", "c"]).unwrap();
    assert_eq!((first.new_pairs, first.updated_pairs), (1, 0));
    let second = first
        .into_cb()
        .feed_tokens(&["a", "b", "c", "d"])
        .unwrap();
    assert_eq!((second.new_pairs, second.updated_pairs), (1, 1));
    let third = ChainBuilder::from(second).feed_str("a b").unwrap();
    assert_eq!((third.new_pairs, third.updated_pairs), (1, 0));
    let chain = third.chain_builder.build().unwrap();
    assert_eq!(
        chain.pairs().to_vec(),
        vec![
            TokenPair::new("a", "b"),
            TokenPair::new("b", "c"),
            TokenPair::new("a", " "),
        ]
    );
}

#[test]
fn conversions_to_a_builder() {
    let err: FeedResult = ChainBuilder::new().feed_str("");
    assert!(err.is_err());
    assert!(ChainBuilder::from(err).build().is_err());
    let ok: FeedResult = ChainBuilder::default().feed_str("Hello Tokens!");
    assert!(ok.is_ok());
    assert!(ChainBuilder::from(ok).build().is_ok());
    let updated = ChainBuilder::new().feed_str("Hello Tokens!").unwrap();
    assert!(updated.into_cb().build().is_ok());
}

#[test]
fn from_text_that_is_too_short_returns_an_empty_builder() {
    let cb = Chain::from_text("I ").unwrap_err();
    assert!(cb.can_build());
    assert!(cb.build().is_err());
    assert!(Chain::from_text("").is_err());
    assert!(Chain::from_text("I am").is_ok());
}

#[test]
fn builders_of_small_texts_can_be_built() {
    assert!(ChainBuilder::new().can_build());
    let cb = ChainBuilder::new().feed_str("a b a b a c").into_cb();
    assert!(cb.can_build());
    assert!(cb.build().is_ok());
}

#[test]
fn a_cloned_builder_learns_apart_from_the_first() {
    let first = ChainBuilder::new().feed_tokens(&["a", "b", "c"]).into_cb();
    let second = first.clone().feed_tokens(&["b", "c", "d"]).into_cb();
    let first = first.build().unwrap();
    let second = second.build().unwrap();
    assert_eq!(first.pairs().to_vec(), vec![TokenPair::new("a", "b")]);
    assert_eq!(
        second.pairs().to_vec(),
        vec![TokenPair::new("a", "b"), TokenPair::new("b", "c")]
    );
    let mut rng = rng();
    assert_eq!(first.generate_next_token(&mut rng, &("b", "c")), None);
    assert_eq!(second.generate_next_token(&mut rng, &("b", "c")), Some("d"));
    assert_eq!(second.generate_next_token(&mut rng, &("a", "b")), Some("c"));
}

#[test]
fn a_cloned_chain_generates_as_the_first() {
    let chain = Chain::from_text("I am-full!of?cats").unwrap();
    let copy = chain.clone();
    assert_eq!(copy.pairs(), chain.pairs());
    let mut rng = rng();
    assert_eq!(
        copy.generate_max_n_tokens(&mut rng, &("I", " "), 13),
        chain.generate_max_n_tokens(&mut rng, &("I", " "), 13)
    );
    assert_eq!(
        copy.generate_max_n_tokens(&mut rng, &("am", "-"), 2),
        Some(vec!["full", "!"])
    );
    assert_eq!(copy.generate_next_token(&mut rng, &("?", "cats")), None);
}

#[test]
fn chain_agrees_with_a_plain_count_of_triples() {
    let alphabet = ["a", "b", "c", "dd", " ", ""];
    let mut rng = rng();
    for round in 0..40 {
        let len = 3 + round * 5;
        let tokens: Vec<&str> = (0..len)
            .map(|_| alphabet[rng.random_range(0..alphabet.len())])
            .collect();
        let mut expected: BTreeMap<(&str, &str), BTreeSet<&str>> = BTreeMap::new();
        let mut order: Vec<TokenPair> = Vec::new();
        for w in tokens.windows(3) {
            if !expected.contains_key(&(w[0], w[1])) {
                order.push(TokenPair::new(w[0], w[1]));
            }
            expected.entry((w[0], w[1])).or_default().insert(w[2]);
        }
        let ucb = ChainBuilder::new().feed_tokens(&tokens).unwrap();
        assert_eq!(ucb.new_pairs, expected.len());
        assert_eq!(ucb.updated_pairs, len - 2 - expected.len());
        let chain = ucb.into_cb().build().unwrap();
        assert_eq!(chain.pairs().to_vec(), order);
        for left in alphabet {
            for right in alphabet {
                match expected.get(&(left, right)) {
                    None => assert_eq!(chain.generate_next_token(&mut rng, &(left, right)), None),
                    Some(choices) => {
                        let mut drawn = BTreeSet::new();
                        for _ in 0..300 {
                            drawn.insert(
                                chain.generate_next_token(&mut rng, &(left, right)).unwrap(),
                            );
                        }
                        assert!(drawn.is_subset(choices));
                        if choices.len() == 1 {
                            assert_eq!(&drawn, choices);
                        }
                    }
                }
            }
        }
    }
}

// What a chain generates.

#[test]
fn zero_tokens_are_generated_from_any_pair() {
    let chain = Chain::from_text("I am-full!of?cats").unwrap();
    let mut rng = rng();
    assert_eq!(
        chain.generate_n_tokens(&mut rng, &("You", " "), 0),
        Some(vec![])
    );
    assert_eq!(
        chain.generate_max_n_tokens(&mut rng, &("You", " "), 0),
        Some(vec![])
    );
    // and nothing was drawn
    assert_eq!(rng, self::rng());
    assert_eq!(chain.generate_str(&mut rng, 0), Some(vec![]));
}

#[test]
fn max_n_tokens_stops_at_the_first_dead_end() {
    let chain = Chain::from_text("I am-full!of?cats").unwrap();
    let mut rng = rng();
    for n in 1..=7 {
        let generated = chain
            .generate_max_n_tokens(&mut rng, &("I", " "), n)
            .unwrap();
        assert_eq!(generated, ["am", "-", "full", "!", "of", "?", "cats"][..n]);
    }
    for n in 8..20 {
        let generated = chain
            .generate_max_n_tokens(&mut rng, &("I", " "), n)
            .unwrap();
        assert_eq!(generated, ["am", "-", "full", "!", "of", "?", "cats"]);
    }
    assert_eq!(
        chain.generate_max_n_tokens(&mut rng, &("of", "?"), 5),
        Some(vec!["cats"])
    );
}

#[test]
fn n_tokens_restarts_with_a_pair_that_was_seen() {
    let chain = Chain::from_text("I am-full!of?cats").unwrap();
    let all = ["I", " ", "am", "-", "full", "!", "of", "?", "cats"];
    let mut rng = rng();
    for n in 1..40 {
        let generated = chain.generate_n_tokens(&mut rng, &("I", " "), n).unwrap();
        assert_eq!(generated.len(), n);
        let walked = n.min(7);
        assert_eq!(generated[..walked], all[2..2 + walked]);
        // behind the dead end ("?", "cats") stands a pair that was seen, and the walk goes on
        // from it to the next dead end
        let mut at = 7;
        while at < n {
            let start = all.iter().position(|t| *t == generated[at]).unwrap();
            assert!(start < 7, "{} starts no pair", generated[at]);
            let len = (n - at).min(all.len() - start);
            assert_eq!(generated[at..at + len], all[start..start + len]);
            at += len;
        }
    }
}

#[test]
fn start_tokens_are_pairs_of_the_chain() {
    let chain = Chain::from_text("I am-full!of?cats").unwrap();
    let mut rng = rng();
    let mut first = 0;
    let mut others = 0;
    for _ in 0..200 {
        let start = chain.start_tokens(&mut rng).unwrap();
        assert!(chain.pairs().contains(start));
        if *start == chain.pairs()[0] {
            first += 1;
        } else {
            others += 1;
        }
    }
    assert!(first > 0);
    assert!(others > first);
}

#[test]
fn generate_str_starts_behind_a_pair_of_the_chain() {
    let chain = Chain::from_text("a b c").unwrap();
    // the pairs are ("a", " "), (" ", "b"), ("b", " "), and a walk from each ends at "c"
    let mut rng = rng();
    for _ in 0..50 {
        let generated = chain.generate_str(&mut rng, 3).unwrap();
        assert_eq!(generated.len(), 3);
        assert!(
            generated[..] == ["b", " ", "c"]
                || generated[..2] == [" ", "c"]
                || generated[..1] == ["c"],
            "{:?}",
            generated
        );
    }
}

#[test]
fn weighted_sampling_follows_the_counts() {
    let mut cb = ChainBuilder::new();
    for _ in 0..9 {
        cb.add_occurance(&("x", "y"), "a");
    }
    cb.add_occurance(&("x", "y"), "b");
    let chain = cb.build().unwrap();
    let mut rng = rng();
    let draws = 100_000;
    let mut a = 0;
    let mut b = 0;
    for _ in 0..draws {
        match chain.generate_next_token(&mut rng, &("x", "y")) {
            Some("a") => a += 1,
            Some("b") => b += 1,
            other => panic!("not seen behind (x, y): {:?}", other),
        }
    }
    assert_eq!(a + b, draws);
    let share = a as f64 / draws as f64;
    assert!((share - 0.9).abs() < 0.01, "share of a: {}", share);
}

#[test]
fn token_limit_is_what_a_vector_of_string_slices_holds() {
    let limit = markovish::chain::token_limit();
    assert_eq!(
        limit,
        isize::MAX as usize / std::mem::size_of::<&str>()
    );
    assert!(Vec::<&str>::with_capacity(0).capacity() <= limit);
}
