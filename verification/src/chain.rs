//! See the top level crate documentation for information about the [`Chain`] type.

use crate::distribution::{TokenDistribution, TokenDistributionBuilder};
use crate::index::PairIndex;
use crate::laws::lemma_fed_table_indexable;
use crate::model::{
    count_of, counts_at, counts_indexable, empty_table, feed, first_seen, fits, follows,
    has_room, is_generation, is_restart_walk, is_walk, lemma_feed_prefix_fits, lemma_feed_room,
    lemma_feed_step, lemma_first_seen_step, note, observe, table_indexable, window, Context,
    Table,
};
use crate::sampling::choose_index;
use crate::token::{TokenPair, TokenPairRef, TokenRef};
use crate::words::{split_words, word_bounds};
use rand::rngs::StdRng;
use vstd::prelude::*;
use vstd::std_specs::convert::FromSpecImpl;

verus! {

/// Marker result for [`ChainBuilder::add_occurance()`] to indicate if a [`TokenPair`] had been
/// seen before or not.
///
/// Does not contain information about if the next token had been seen before or not.
#[derive(Clone, Copy, Debug, PartialEq, Eq)]
pub enum AddedPair {
    /// This pair was new.
    New,
    /// This pair existed and the matching next token has been incremented.
    Updated,
}

/// The most tokens that one call can be asked to generate: as many string
/// slices as a `Vec` can be made for, which is `isize::MAX` divided by the
/// size of a string slice.
pub open spec fn max_tokens() -> nat {
    if usize::BITS == 64 {
        0x07ff_ffff_ffff_ffff
    } else {
        0x0fff_ffff
    }
}

/// The most tokens that one call can be asked to generate.
pub fn token_limit() -> (limit: usize)
    ensures
        limit == max_tokens(),
{
    let slice_size = (usize::BITS / 4) as usize;
    assert(slice_size == 16 <==> usize::BITS == 64);
    assert(slice_size == 8 <==> usize::BITS == 32);
    (isize::MAX as usize) / slice_size
}

/// Simple second order Markov chain. This chain might behave in ways you do not expect; Since we
/// are looking at [`Token`](crate::token::Token)s, and not words. If this is not desired, you
/// can use your own splitting of tokens and use [`ChainBuilder::feed_tokens()`].
#[derive(Debug)]
pub struct Chain {
    /// Where each pair stands in `pairs`.
    index: PairIndex,
    /// The pairs that were seen, in the order in which they were first seen.
    pairs: Vec<TokenPair>,
    /// What follows the pair at the same position.
    dists: Vec<TokenDistribution>,
}

impl View for Chain {
    type V = Table;

    /// For each pair that has been seen, the weight of each token that follows it.
    open spec fn view(&self) -> Table {
        self.table()
    }
}

impl Chain {
    /// For each pair that has been seen, the weight of each token that follows it.
    pub closed spec fn table(&self) -> Table {
        Map::new(
            |context: Context| self.index@.contains_key(context),
            |context: Context| self.dists[self.index@[context] as int]@,
        )
    }

    /// The pairs that have been seen, in the order in which they were first seen.
    pub closed spec fn contexts(&self) -> Seq<Context> {
        self.pairs@.map_values(|pair: TokenPair| pair@)
    }

    /// The index finds each pair at its position, and each pair has a valid distribution.
    pub closed spec fn wf(&self) -> bool {
        &&& self.pairs.len() == self.dists.len()
        &&& self.index.finds(self.pairs@)
        &&& forall|i: int| 0 <= i < self.dists.len() ==> (#[trigger] self.dists[i]).wf()
    }

    /// Creates a new second order Markov chain from a string.
    ///
    /// If the provided text is not long enough to create a [`Chain`],
    /// an empty [`ChainBuilder`] is returned instead.
    ///
    /// A text of more than `u32::MAX + 2` tokens may hold a pair whose counts
    /// `WeightedAliasIndex` does not take. Then the [`ChainBuilder`] that was
    /// fed the text is returned.
    pub fn from_text(content: &str) -> (made: Result<Self, ChainBuilder>)
        ensures
            ({
                let words = word_bounds(content@);
                let table = feed(empty_table(), words);
                match made {
                    Ok(chain) => {
                        &&& words.len() >= 3
                        &&& table_indexable(table)
                        &&& chain.wf()
                        &&& chain@ == table
                        &&& chain.contexts() == first_seen(Seq::empty(), words)
                    },
                    Err(builder) => {
                        &&& builder.wf()
                        &&& builder@ == table
                        &&& builder.contexts() == first_seen(Seq::empty(), words)
                        &&& words.len() < 3 || (words.len() > u32::MAX + 2 && !table_indexable(
                            table,
                        ))
                    },
                }
            }),
    {
        proof {
            let words = word_bounds(content@);
            if words.len() <= u32::MAX + 2 {
                lemma_fed_table_indexable(words);
            }
        }
        let cb = Self::builder();
        assert(cb.contexts() =~= Seq::empty());
        match cb.feed_str(content) {
            Ok(updated) => {
                let cb = ChainBuilder::from(updated);
                proof {
                    cb.lemma_table();
                }
                if cb.can_build() {
                    cb.build()
                } else {
                    Err(cb)
                }
            },
            Err(cb) => Err(cb),
        }
    }

    /// A builder that has not been fed anything.
    pub fn builder() -> (builder: ChainBuilder)
        ensures
            builder.wf(),
            builder@ == empty_table(),
            builder.contexts().len() == 0,
    {
        ChainBuilder::new()
    }

    /// The table of a valid chain has the pairs of `pairs`, each once.
    proof fn lemma_pairs(&self)
        requires
            self.wf(),
        ensures
            self@.dom() == self.index@.dom(),
            self@.dom().finite(),
            self@.len() == self.pairs.len(),
            self.contexts().len() == self.pairs.len(),
            forall|context: Context|
                self.contexts().contains(context) <==> self@.contains_key(context),
    {
        assert(self@.dom() =~= self.index@.dom());
        assert forall|context: Context| self@.contains_key(context) implies self.contexts()
            .contains(context) by {
            assert(self.contexts()[self.index@[context] as int] == context);
        }
    }

    /// A valid chain has seen finitely many pairs, and behind each of them
    /// at least one token, each with a weight of at least one.
    pub proof fn lemma_table(&self)
        requires
            self.wf(),
        ensures
            self@.dom().finite(),
            self.contexts().len() == self@.len(),
            self.contexts().no_duplicates(),
            forall|context: Context|
                self.contexts().contains(context) <==> self@.contains_key(context),
            forall|context: Context| #[trigger]
                self@.contains_key(context) ==> exists|token: Seq<char>|
                    follows(self@, context, token),
            forall|context: Context, token: Seq<char>| #[trigger]
                follows(self@, context, token) ==> self@[context][token] >= 1,
    {
        self.lemma_pairs();
        assert forall|context: Context| #[trigger] self@.contains_key(context) implies {
            &&& exists|token: Seq<char>| follows(self@, context, token)
            &&& forall|token: Seq<char>| #[trigger]
                self@[context].contains_key(token) ==> self@[context][token] >= 1
        } by {
            self.dists[self.index@[context] as int].lemma_weights();
            let token = choose|token: Seq<char>| self@[context].contains_key(token);
            assert(follows(self@, context, token));
        }
    }

    /// Returns all pairs that have been found in the source text(s), in the order in which
    /// they were first found. When calling [`Chain::start_tokens()`], a [`TokenPair`] is
    /// randomly chosen from this list.
    ///
    /// This can be used together with [`Chain::generate_max_n_tokens()`] to get more fine-grained
    /// control of how the chain is restarted if it stumbles on a token pair with no possible next
    /// token. You can filter the pairs so that they are more likely to start a sentence.
    pub fn pairs(&self) -> (pairs: &[TokenPair])
        requires
            self.wf(),
        ensures
            pairs.len() == self@.len(),
            pairs.len() == self.contexts().len(),
            forall|i: int| 0 <= i < pairs.len() ==> #[trigger] pairs[i]@ == self.contexts()[i],
            forall|i: int| 0 <= i < pairs.len() ==> self@.contains_key(#[trigger] pairs[i]@),
            forall|context: Context| #[trigger]
                self@.contains_key(context) ==> exists|i: int|
                    0 <= i < pairs.len() && pairs[i]@ == context,
            forall|i: int, j: int|
                0 <= i < j < pairs.len() ==> #[trigger] pairs[i]@ != #[trigger] pairs[j]@,
    {
        proof {
            self.lemma_pairs();
        }
        self.pairs.as_slice()
    }

    /// Randomly chooses two tokens that are known to be able to generate a new token. If no
    /// start tokens exist, `None` is returned.
    ///
    /// While this is an easy way, the returned value can be any two pairs of token in
    /// the source text. If you need more control, you could first filter on [`Chain::pairs()`],
    /// and then randomly choose starting tokens from that subset.
    pub fn start_tokens(&self, rng: &mut StdRng) -> (start: Option<&TokenPair>)
        requires
            self.wf(),
        ensures
            match start {
                Some(pair) => self@.contains_key(pair@),
                None => self@.len() == 0,
            },
    {
        proof {
            self.lemma_pairs();
        }
        match choose_index(self.pairs.len(), rng) {
            Some(position) => Some(&self.pairs[position]),
            None => None,
        }
    }

    /// Generates a random new token using the previous tokens.
    ///
    /// If the chain has never seen the `prev` tokens together, `None` is returned.
    pub fn generate_next_token(&self, rng: &mut StdRng, prev: &TokenPairRef<'_>) -> (next: Option<
        TokenRef<'_>,
    >)
        requires
            self.wf(),
        ensures
            match next {
                Some(token) => follows(self@, prev@, token@),
                None => !self@.contains_key(prev@),
            },
    {
        match self.index.get(prev) {
            Some(position) => Some(self.dists[position].get_random_token(rng).as_str()),
            None => None,
        }
    }

    /// Generates `n` tokens, randomly choosing a starting point.
    ///
    /// Returns `None` only where the chain has not seen any pair.
    ///
    /// `n` may not be so big that no vector can hold that many elements: see
    /// [`token_limit()`].
    pub fn generate_str(&self, rng: &mut StdRng, n: usize) -> (generated: Option<Vec<&str>>)
        requires
            self.wf(),
            n <= max_tokens(),
        ensures
            match generated {
                Some(tokens) => exists|start: Context|
                    {
                        &&& #[trigger] self@.contains_key(start)
                        &&& is_generation(self@, start, tokens.deep_view(), n as nat)
                    },
                None => self@.len() == 0,
            },
    {
        let start = self.start_tokens(rng)?;
        self.generate_n_tokens(rng, &start.as_ref(), n)
    }

    /// Generates `n` tokens, using previously used tokens to generate new ones. If two tokens are
    /// found that have never been seen before, two new starting tokens are generated using
    /// [`Chain::start_tokens()`].
    ///
    /// If the chain has never seen the `prev` tokens together, `None` is returned.
    /// But where `n` is zero, an empty vector is returned whatever `prev` is,
    /// and nothing is drawn from `rng`.
    ///
    /// `n` may not be so big that no vector can hold that many elements: see
    /// [`token_limit()`].
    pub fn generate_n_tokens(
        &self,
        rng: &mut StdRng,
        prev: &TokenPairRef<'_>,
        n: usize,
    ) -> (generated: Option<Vec<TokenRef<'_>>>)
        requires
            self.wf(),
            n <= max_tokens(),
        ensures
            match generated {
                Some(tokens) => {
                    &&& is_generation(self@, prev@, tokens.deep_view(), n as nat)
                    &&& n > 0 ==> self@.contains_key(prev@)
                },
                None => n > 0 && !self@.contains_key(prev@),
            },
            n == 0 ==> *final(rng) == *old(rng),
    {
        if n < 1 {
            return Some(Vec::new());
        }
        // We first make sure the `prev` tokens have ever been seen together before
        // allocating the result
        let first = self.generate_next_token(rng, prev)?;
        let mut res: Vec<TokenRef<'_>> = Vec::with_capacity(n);

        res.push(first);

        let (mut left, mut right) = (prev.1, first);
        proof {
            self.lemma_table();
            assert(is_restart_walk(self@, prev@, res.deep_view().take(0)));
        }

        // Since we are not including n, we don't take (n - 1)
        while res.len() < n
            invariant_except_break
                (left@, right@) == window(prev@, res.deep_view()),
                is_restart_walk(self@, prev@, res.deep_view()),
            invariant
                self.wf(),
                self@.dom().finite(),
                self@.contains_key(prev@),
                1 <= res.len() <= n,
            ensures
                is_generation(self@, prev@, res.deep_view(), n as nat),
            decreases n - res.len(),
        {
            let ghost out = res.deep_view();
            if let Some(next) = self.generate_next_token(rng, &(left, right)) {
                res.push(next);
                left = right;
                right = next;
                proof {
                    let longer = res.deep_view();
                    assert(longer.take(longer.len() - 1) =~= out);
                }
            } else {
                // We found two tokens that have never been seen together, we have to get new start
                // tokens. Unwrap is safe, since we could never get this far without any start
                // tokens.
                let tp = self.start_tokens(rng).unwrap();

                // Figure out if we have room for both
                let r = n - res.len();
                if r >= 2 {
                    left = tp.0.as_str();
                    right = tp.1.as_str();
                    res.push(tp.0.as_str());
                    res.push(tp.1.as_str());
                    proof {
                        let longer = res.deep_view();
                        assert(longer.take(longer.len() - 2) =~= out);
                    }
                } else if r == 1 {
                    res.push(tp.0.as_str());
                    proof {
                        let longer = res.deep_view();
                        assert(longer.drop_last() =~= out);
                    }
                    break;
                } else {
                    // Should never happen
                    break;
                }
            }
        }

        Some(res)
    }

    /// Generates `n` tokens, using previously used tokens to generate new ones. Less tokens may
    /// be generated, if two tokens are found that have never been seen before.
    ///
    /// If the chain has never seen the `prev` tokens together, `None` is returned.
    /// But where `n` is zero, an empty vector is returned whatever `prev` is,
    /// and nothing is drawn from `rng`.
    ///
    /// `n` may not be so big that no vector can hold that many elements: see
    /// [`token_limit()`].
    pub fn generate_max_n_tokens(
        &self,
        rng: &mut StdRng,
        prev: &TokenPairRef<'_>,
        n: usize,
    ) -> (generated: Option<Vec<TokenRef<'_>>>)
        requires
            self.wf(),
            n <= max_tokens(),
        ensures
            match generated {
                Some(tokens) => {
                    let out = tokens.deep_view();
                    if n == 0 {
                        out.len() == 0
                    } else {
                        &&& self@.contains_key(prev@)
                        &&& 1 <= out.len() <= n
                        &&& is_walk(self@, prev@, out)
                        &&& out.len() < n ==> !self@.contains_key(window(prev@, out))
                    }
                },
                None => n > 0 && !self@.contains_key(prev@),
            },
            n == 0 ==> *final(rng) == *old(rng),
    {
        if n < 1 {
            return Some(Vec::new());
        }
        // We first make sure the `prev` tokens have ever been seen together before
        // allocating the result
        let first = self.generate_next_token(rng, prev)?;
        let mut res: Vec<TokenRef<'_>> = Vec::with_capacity(n);

        res.push(first);

        let (mut left, mut right) = (prev.1, first);

        while res.len() < n
            invariant_except_break
                (left@, right@) == window(prev@, res.deep_view()),
            invariant
                self.wf(),
                1 <= res.len() <= n,
                is_walk(self@, prev@, res.deep_view()),
            ensures
                res.len() < n ==> !self@.contains_key(window(prev@, res.deep_view())),
            decreases n - res.len(),
        {
            let ghost out = res.deep_view();
            if let Some(next) = self.generate_next_token(rng, &(left, right)) {
                res.push(next);
                left = right;
                right = next;
                proof {
                    let longer = res.deep_view();
                    assert forall|i: int| 0 <= i < longer.len() implies follows(
                        self@,
                        window(prev@, #[trigger] longer.take(i)),
                        longer[i],
                    ) by {
                        if i < out.len() {
                            assert(longer.take(i) =~= out.take(i));
                        }
                    }
                }
            } else {
                // We found two tokens that have never been seen together
                break;
            }
        }

        Some(res)
    }
}

/// The result of feeding some tokens to a [`ChainBuilder`]. The `Err` variant means that the feed
/// failed, and that an unmodified [`ChainBuilder`] was returned.
///
/// Can be converted to a [`ChainBuilder`] using [`IntoChainBuilder::into_cb()`].
pub type FeedResult = Result<UpdatedChainBuilder, ChainBuilder>;

/// The result of feeding tokens to a [`ChainBuilder`], where tokens were
/// added. Contains data about what was updated.
///
/// This is a thin wrapper around a [`ChainBuilder`].
#[derive(Debug)]
pub struct UpdatedChainBuilder {
    /// The wrapped updated [`ChainBuilder`]
    pub chain_builder: ChainBuilder,
    /// The amount of [`TokenPair`]s that were seen for the first time in
    /// this update.
    pub new_pairs: usize,
    /// The amount of times existing [`TokenPair`]s had their distribution updated.
    pub updated_pairs: usize,
}

/// What feeding `tokens` to the valid builder `before` returns: with fewer
/// than three tokens the builder as it was, else a valid builder with every
/// three consecutive tokens observed and the new pairs behind those that it
/// had, the number of pairs that the table gained, and the number of the
/// other observations.
pub open spec fn is_feed_result(
    before: ChainBuilder,
    tokens: Seq<Seq<char>>,
    fed: FeedResult,
) -> bool {
    match fed {
        Ok(updated) => {
            &&& tokens.len() >= 3
            &&& updated.chain_builder.wf()
            &&& updated.chain_builder@ == feed(before@, tokens)
            &&& updated.chain_builder.contexts() == first_seen(before.contexts(), tokens)
            &&& updated.new_pairs == updated.chain_builder@.len() - before@.len()
            &&& updated.new_pairs + updated.updated_pairs == tokens.len() - 2
        },
        Err(builder) => tokens.len() < 3 && builder == before,
    }
}

/// Builds a Chain by being fed strings and keeping track of the likelihood that one token
/// follows two others.
#[derive(Debug)]
pub struct ChainBuilder {
    /// Where each pair stands in `pairs`.
    index: PairIndex,
    /// The pairs, in the order in which they were first seen.
    pairs: Vec<TokenPair>,
    /// What followed the pair at the same position.
    builders: Vec<TokenDistributionBuilder>,
    /// The highest count that any of the builders holds.
    heaviest: u64,
}

impl View for ChainBuilder {
    type V = Table;

    /// For each pair that was seen, how often each token followed it.
    open spec fn view(&self) -> Table {
        self.table()
    }
}

impl ChainBuilder {
    /// For each pair that was seen, how often each token followed it.
    pub closed spec fn table(&self) -> Table {
        Map::new(
            |context: Context| self.index@.contains_key(context),
            |context: Context| self.builders[self.index@[context] as int]@,
        )
    }

    /// The pairs that were seen, in the order in which they were first seen.
    pub closed spec fn contexts(&self) -> Seq<Context> {
        self.pairs@.map_values(|pair: TokenPair| pair@)
    }

    /// The index finds each pair at its position, each pair has a valid
    /// builder that has seen a token, and `heaviest` is the highest count.
    pub closed spec fn wf(&self) -> bool {
        &&& self.pairs.len() == self.builders.len()
        &&& self.index.finds(self.pairs@)
        &&& forall|i: int|
            0 <= i < self.builders.len() ==> {
                &&& (#[trigger] self.builders[i]).wf()
                &&& self.builders[i]@.len() > 0
            }
        &&& forall|i: int, token: Seq<char>|
            0 <= i < self.builders.len() && #[trigger] self.builders[i]@.contains_key(token)
                ==> self.builders[i]@[token] <= self.heaviest
        &&& self.heaviest == 0 || exists|i: int, token: Seq<char>|
            0 <= i < self.builders.len() && #[trigger] self.builders[i]@.contains_key(token)
                && self.builders[i]@[token] == self.heaviest
    }

    /// A builder that has not been fed anything.
    pub fn new() -> (builder: Self)
        ensures
            builder.wf(),
            builder@ == empty_table(),
            builder.contexts().len() == 0,
    {
        ChainBuilder {
            index: PairIndex::new(),
            pairs: Vec::new(),
            builders: Vec::new(),
            heaviest: 0,
        }
    }

    /// Uses up the builder and creates a new chain.
    ///
    /// Will return an error if the builder have not been fed any strings.
    ///
    /// `WeightedAliasIndex` must take the counts of each pair, which
    /// `can_build` tests.
    pub fn build(self) -> (built: Result<Chain, ChainBuilder>)
        requires
            self.wf(),
            table_indexable(self@),
        ensures
            match built {
                Ok(chain) => {
                    &&& self@.len() > 0
                    &&& chain.wf()
                    &&& chain@ == self@
                    &&& chain.contexts() == self.contexts()
                },
                Err(builder) => self@.len() == 0 && builder == self,
            },
    {
        proof {
            self.lemma_pairs();
        }
        if self.pairs.is_empty() {
            return Err(self);
        }
        proof {
            assert forall|j: int| 0 <= j < self.builders.len() implies counts_indexable(
                #[trigger] self.builders[j]@,
            ) by {
                assert(self@.contains_key(self.pairs[j]@));
            }
        }
        let ChainBuilder { index, pairs, builders, heaviest: _ } = self;
        let ghost all = builders@;
        let mut dists: Vec<TokenDistribution> = Vec::with_capacity(builders.len());
        for builder in it: builders
            invariant
                all == it.seq(),
                dists.len() == it.index(),
                forall|j: int| 0 <= j < all.len() ==> (#[trigger] all[j]).wf(),
                forall|j: int| 0 <= j < all.len() ==> counts_indexable(#[trigger] all[j]@),
                forall|j: int|
                    0 <= j < dists.len() ==> (#[trigger] dists[j]).wf() && dists[j]@ == all[j]@,
        {
            dists.push(builder.build());
        }
        Ok(Chain { index, pairs, dists })
    }

    /// The table of a valid builder has the pairs of `pairs`, each once.
    proof fn lemma_pairs(&self)
        requires
            self.wf(),
        ensures
            self@.dom() == self.index@.dom(),
            self@.dom().finite(),
            self@.len() == self.pairs.len(),
            self.contexts().len() == self.pairs.len(),
            forall|context: Context|
                self.contexts().contains(context) <==> self@.contains_key(context),
    {
        assert(self@.dom() =~= self.index@.dom());
        assert forall|context: Context| self@.contains_key(context) implies self.contexts()
            .contains(context) by {
            assert(self.contexts()[self.index@[context] as int] == context);
        }
    }

    /// A valid builder has seen finitely many pairs, and finitely many tokens
    /// but at least one behind each of them, none more often than a `u64` holds.
    pub proof fn lemma_table(&self)
        requires
            self.wf(),
        ensures
            self@.dom().finite(),
            self.contexts().len() == self@.len(),
            self.contexts().no_duplicates(),
            forall|context: Context|
                self.contexts().contains(context) <==> self@.contains_key(context),
            fits(self@),
            forall|context: Context| #[trigger]
                self@.contains_key(context) ==> self@[context].dom().finite()
                    && self@[context].len() > 0,
    {
        self.lemma_pairs();
        assert forall|context: Context| #[trigger] self@.contains_key(context) implies {
            &&& self@[context].dom().finite()
            &&& self@[context].len() > 0
            &&& forall|token: Seq<char>| #[trigger]
                self@[context].contains_key(token) ==> self@[context][token] <= u64::MAX
        } by {
            self.builders[self.index@[context] as int].lemma_counts();
        }
    }

    /// Whether `build` can be called: whether `WeightedAliasIndex` takes the
    /// counts of each pair.
    pub fn can_build(&self) -> (can: bool)
        requires
            self.wf(),
        ensures
            can == table_indexable(self@),
    {
        let n = self.builders.len();
        let mut i: usize = 0;
        while i < n
            invariant
                self.wf(),
                n == self.builders.len(),
                0 <= i <= n,
                forall|j: int| 0 <= j < i ==> counts_indexable(#[trigger] self.builders[j]@),
            decreases n - i,
        {
            if !self.builders[i].can_build() {
                proof {
                    assert(self@.contains_key(self.pairs[i as int]@));
                }
                return false;
            }
            i += 1;
        }
        true
    }

    /// Feeds the chain builder with more text, adding the tokens in this string to the mappings of
    /// this. May fail if the input string is too short.
    ///
    /// The tokens are from [`unicode_segmentation::UnicodeSegmentation::split_word_bounds()`]; if
    /// you want more control you can pre-split your tokens and use
    /// [`ChainBuilder::feed_tokens()`], but using a builder fed with both strings and pre-split
    /// tokens might result in odd output.
    ///
    /// Fails too, and returns the builder as it was, if one of its counts
    /// cannot grow by the number of observations that the text holds.
    ///
    /// See also [`ChainBuilder::feed_tokens()`].
    pub fn feed_str(self, content: &str) -> (fed: FeedResult)
        requires
            self.wf(),
        ensures
            ({
                let words = word_bounds(content@);
                match fed {
                    Ok(updated) => {
                        &&& is_feed_result(self, words, fed)
                        &&& has_room(self@, (words.len() - 2) as nat)
                    },
                    Err(builder) => {
                        &&& builder == self
                        &&& words.len() < 3 || !has_room(self@, (words.len() - 2) as nat)
                    },
                }
            }),
    {
        let tokens = split_words(content);
        let n = tokens.len();
        if n < 3 {
            return Err(self);
        }
        let more = (n - 2) as u64;
        if self.heaviest > u64::MAX - more {
            proof {
                let (i, token) = choose|i: int, token: Seq<char>|
                    0 <= i < self.builders.len() && #[trigger] self.builders[i]@.contains_key(token)
                        && self.builders[i]@[token] == self.heaviest;
                assert(self@[self.pairs[i]@].contains_key(token));
            }
            return Err(self);
        }
        proof {
            lemma_feed_room(self@, tokens.deep_view(), more as nat);
        }
        self.feed_tokens(tokens.as_slice())
    }

    /// Feeds the chain builder with pre-split tokens. Useful if you want to just split on
    /// whitespace and then join the result. May fail if the input is too short, in which case
    /// the (not updated) [`ChainBuilder`] is returned.
    ///
    /// No count may pass `u64::MAX`.
    pub fn feed_tokens(self, tokens: &[&str]) -> (fed: FeedResult)
        requires
            self.wf(),
            fits(feed(self@, tokens.deep_view())),
        ensures
            is_feed_result(self, tokens.deep_view(), fed),
    {
        let n = tokens.len();
        if n < 3 {
            return Err(self);
        }
        let ghost before = self@;
        let ghost order = self.contexts();
        let ghost words = tokens.deep_view();
        let mut builder = self;
        let mut new_pairs: usize = 0;
        let mut updated_pairs: usize = 0;
        let mut i: usize = 0;
        proof {
            builder.lemma_table();
            builder.lemma_pairs();
        }
        while i < n - 2
            invariant
                builder.wf(),
                n == tokens.len(),
                n >= 3,
                0 <= i <= n - 2,
                words == tokens.deep_view(),
                fits(feed(before, words)),
                builder@ == feed(before, words.take(i + 2)),
                builder.contexts() == first_seen(order, words.take(i + 2)),
                new_pairs + updated_pairs == i,
                before.dom().finite(),
                new_pairs == builder.pairs.len() - before.len(),
            decreases n - i,
        {
            let pair = (tokens[i], tokens[i + 1]);
            proof {
                lemma_feed_step(before, words, i + 3);
                lemma_first_seen_step(order, words, i + 3);
                lemma_feed_prefix_fits(before, words, i + 3);
                let after = observe(builder@, pair@, tokens[i + 2]@);
                assert(after[pair@].contains_key(tokens[i + 2]@));
                builder.lemma_pairs();
            }
            match builder.add_occurance(&pair, tokens[i + 2]) {
                AddedPair::New => {
                    new_pairs += 1;
                },
                AddedPair::Updated => {
                    updated_pairs += 1;
                },
            }
            proof {
                builder.lemma_pairs();
            }
            i += 1;
        }
        proof {
            assert(words.take(n as int) =~= words);
            builder.lemma_pairs();
        }
        Ok(UpdatedChainBuilder { chain_builder: builder, new_pairs, updated_pairs })
    }

    /// Add the occurance of `next` following `prev`.
    ///
    /// The count of `next` behind `prev` may not be `u64::MAX` already.
    pub fn add_occurance(&mut self, prev: &TokenPairRef<'_>, next: &str) -> (added: AddedPair)
        requires
            old(self).wf(),
            count_of(counts_at(old(self)@, prev@), next@) < u64::MAX,
        ensures
            final(self).wf(),
            final(self)@ == observe(old(self)@, prev@, next@),
            final(self).contexts() == note(old(self).contexts(), prev@),
            added is New <==> !old(self)@.contains_key(prev@),
    {
        match self.index.get(prev) {
            Some(position) => {
                let count = self.builders[position].record(next);
                if count > self.heaviest {
                    self.heaviest = count;
                }
                proof {
                    let at = position as int;
                    old(self).lemma_pairs();
                    self.builders[at].lemma_counts();
                    assert(self.builders[at]@.contains_key(next@));
                    if self.heaviest == old(self).heaviest && self.heaviest != 0 {
                        let (i, token) = choose|i: int, token: Seq<char>|
                            0 <= i < old(self).builders.len() && #[trigger] old(
                                self,
                            ).builders[i]@.contains_key(token) && old(self).builders[i]@[token]
                                == old(self).heaviest;
                        assert(self.builders[i]@.contains_key(token));
                    }
                }
                AddedPair::Updated
            },
            None => {
                let mut builder = TokenDistributionBuilder::new();
                builder.record(next);
                let pair = TokenPair::from(prev);
                self.index.insert(pair.clone(), self.pairs.len());
                self.pairs.push(pair);
                self.builders.push(builder);
                if self.heaviest == 0 {
                    self.heaviest = 1;
                }
                proof {
                    let at = old(self).pairs.len() as int;
                    old(self).lemma_pairs();
                    self.builders[at].lemma_counts();
                    assert(self.builders[at]@.contains_key(next@));
                    if old(self).heaviest != 0 {
                        let (i, token) = choose|i: int, token: Seq<char>|
                            0 <= i < old(self).builders.len() && #[trigger] old(
                                self,
                            ).builders[i]@.contains_key(token) && old(self).builders[i]@[token]
                                == old(self).heaviest;
                        assert(self.builders[i]@.contains_key(token));
                    }
                }
                AddedPair::New
            },
        }
    }
}

impl Clone for ChainBuilder {
    /// A valid builder with the same table.
    fn clone(&self) -> (copy: Self)
        ensures
            self.wf() ==> copy.wf() && copy@ == self@ && copy.contexts() == self.contexts(),
    {
        ChainBuilder {
            index: self.index.clone(),
            pairs: self.pairs.clone(),
            builders: self.builders.clone(),
            heaviest: self.heaviest,
        }
    }
}

impl Clone for Chain {
    /// A valid chain with the same table.
    fn clone(&self) -> (copy: Self)
        ensures
            self.wf() ==> copy.wf() && copy@ == self@ && copy.contexts() == self.contexts(),
    {
        Chain { index: self.index.clone(), pairs: self.pairs.clone(), dists: self.dists.clone() }
    }
}

impl Default for ChainBuilder {
    fn default() -> (builder: Self)
        ensures
            builder.wf(),
            builder@ == empty_table(),
            builder.contexts().len() == 0,
    {
        Self::new()
    }
}

impl From<UpdatedChainBuilder> for ChainBuilder {
    fn from(value: UpdatedChainBuilder) -> (builder: Self) {
        value.chain_builder
    }
}

impl FromSpecImpl<UpdatedChainBuilder> for ChainBuilder {
    open spec fn obeys_from_spec() -> bool {
        true
    }

    open spec fn from_spec(value: UpdatedChainBuilder) -> Self {
        value.chain_builder
    }
}

impl From<FeedResult> for ChainBuilder {
    fn from(value: FeedResult) -> (builder: Self) {
        match value {
            Ok(ucb) => ucb.chain_builder,
            Err(cb) => cb,
        }
    }
}

impl FromSpecImpl<FeedResult> for ChainBuilder {
    open spec fn obeys_from_spec() -> bool {
        true
    }

    open spec fn from_spec(value: FeedResult) -> Self {
        match value {
            Ok(ucb) => ucb.chain_builder,
            Err(cb) => cb,
        }
    }
}

/// We're sealing [`IntoChainBuilder`] by using a supertrait. We want other crates to be
/// able to call `into_cb`, but not to implement it themselves. So this trait should *never* be
/// public.
trait SealedIntoChainBuilder {

}

impl SealedIntoChainBuilder for FeedResult {

}

impl SealedIntoChainBuilder for UpdatedChainBuilder {

}

/// Sealed trait used to make a type convertable to a [`ChainBuilder`].
///
/// You cannot implement this by yourself, but you can use its method.
#[allow(private_bounds)]
pub trait IntoChainBuilder: SealedIntoChainBuilder + Sized {
    /// The [`ChainBuilder`] that `into_cb` returns.
    spec fn inner(self) -> ChainBuilder;

    /// Returns the inner [`ChainBuilder`].
    fn into_cb(self) -> (builder: ChainBuilder)
        ensures
            builder == self.inner(),
    ;
}

impl IntoChainBuilder for FeedResult {
    open spec fn inner(self) -> ChainBuilder {
        match self {
            Ok(ucb) => ucb.chain_builder,
            Err(cb) => cb,
        }
    }

    fn into_cb(self) -> (builder: ChainBuilder) {
        match self {
            Ok(ucb) => ucb.chain_builder,
            Err(cb) => cb,
        }
    }
}

impl IntoChainBuilder for UpdatedChainBuilder {
    open spec fn inner(self) -> ChainBuilder {
        self.chain_builder
    }

    fn into_cb(self) -> (builder: ChainBuilder) {
        self.chain_builder
    }
}

} // verus!
