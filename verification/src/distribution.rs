//! A [`TokenDistribution`] says how likely each token is to follow one context
//! of a [`Chain`](crate::Chain). It is made by a [`TokenDistributionBuilder`],
//! which counts the tokens as they are seen.

use crate::index::TokenIndex;
use crate::model::{count_of, counts_indexable, no_counts, record, Counts};
use crate::sampling::{alias_table, alias_weights, sample_index, AliasTable};
use crate::token::Token;
use rand::rngs::StdRng;
use vstd::prelude::*;

verus! {

/// A distribution of choices and their likelihood.
#[derive(Debug)]
pub struct TokenDistribution {
    /// Draws the position of a choice, each as likely as its weight says.
    dist: AliasTable,
    /// The actual choices.
    choices: Vec<Token>,
}

impl View for TokenDistribution {
    type V = Counts;

    /// The weight of each choice.
    open spec fn view(&self) -> Counts {
        self.weights()
    }
}

impl TokenDistribution {
    /// Whether `token` is the choice at `position`.
    spec fn holds_at(&self, token: Seq<char>, position: int) -> bool {
        0 <= position < self.choices.len() && self.choices[position]@ == token
    }

    /// The weight of each choice.
    pub closed spec fn weights(&self) -> Counts {
        Map::new(
            |token: Seq<char>| exists|i: int| self.holds_at(token, i),
            |token: Seq<char>|
                alias_weights(self.dist)[choose|i: int| self.holds_at(token, i)] as nat,
        )
    }

    /// There is a weight of at least one for each choice, and no choice stands twice.
    pub closed spec fn wf(&self) -> bool {
        &&& self.choices.len() > 0
        &&& alias_weights(self.dist).len() == self.choices.len()
        &&& forall|i: int, j: int|
            0 <= i < j < self.choices.len() ==> #[trigger] self.choices[i]@
                != #[trigger] self.choices[j]@
        &&& forall|i: int|
            0 <= i < self.choices.len() ==> #[trigger] alias_weights(self.dist)[i] >= 1
    }

    /// A valid distribution has at least one choice, and every weight is at least one.
    pub proof fn lemma_weights(&self)
        requires
            self.wf(),
        ensures
            exists|token: Seq<char>| self@.contains_key(token),
            forall|token: Seq<char>| #[trigger] self@.contains_key(token) ==> self@[token] >= 1,
    {
        assert(self.holds_at(self.choices[0]@, 0));
        assert(self@.contains_key(self.choices[0]@));
    }

    /// A builder that has seen no token.
    pub fn builder() -> (builder: TokenDistributionBuilder)
        ensures
            builder.wf(),
            builder@ == no_counts(),
    {
        TokenDistributionBuilder::new()
    }

    /// Draws one of the choices with `rng`. Each is as likely as its weight
    /// is to the sum of the weights; of that the contract says only that a
    /// choice is returned.
    pub fn get_random_token(&self, rng: &mut StdRng) -> (token: &Token)
        requires
            self.wf(),
        ensures
            self@.contains_key(token@),
    {
        let position = sample_index(&self.dist, rng);
        assert(self.holds_at(self.choices[position as int]@, position as int));
        &self.choices[position]
    }
}

impl Clone for TokenDistribution {
    /// A valid distribution with the same choices and weights.
    fn clone(&self) -> (copy: Self)
        ensures
            self.wf() ==> copy.wf() && copy@ == self@,
    {
        let copy = TokenDistribution { dist: self.dist.clone(), choices: self.choices.clone() };
        proof {
            assert forall|token: Seq<char>, i: int|
                copy.holds_at(token, i) == self.holds_at(token, i) by {}
        }
        copy
    }
}

/// Counts how often each token was seen, to make a [`TokenDistribution`] of the counts.
#[derive(Debug)]
pub struct TokenDistributionBuilder {
    /// Where each token stands in `tokens`.
    index: TokenIndex,
    /// The tokens, in the order in which they were first seen.
    tokens: Vec<Token>,
    /// How often the token at the same position was seen.
    occurrences: Vec<u64>,
}

impl View for TokenDistributionBuilder {
    type V = Counts;

    /// How often each token was seen.
    open spec fn view(&self) -> Counts {
        self.counts()
    }
}

impl TokenDistributionBuilder {
    /// How often each token was seen.
    pub closed spec fn counts(&self) -> Counts {
        Map::new(
            |token: Seq<char>| self.index@.contains_key(token),
            |token: Seq<char>| self.occurrences[self.index@[token] as int] as nat,
        )
    }

    /// The index finds each token at its position, and each token was seen at least once.
    pub closed spec fn wf(&self) -> bool {
        &&& self.tokens.len() == self.occurrences.len()
        &&& self.index.finds(self.tokens@)
        &&& forall|i: int| 0 <= i < self.occurrences.len() ==> #[trigger] self.occurrences[i] >= 1
    }

    /// The counts of a valid builder are those of the tokens of `tokens`, each once.
    proof fn lemma_tokens(&self)
        requires
            self.wf(),
        ensures
            self@.dom() == self.index@.dom(),
            self@.dom().finite(),
            self@.len() == self.tokens.len(),
    {
    }

    /// A valid builder has counted finitely many tokens, each at least once,
    /// and none more often than a `u64` holds.
    pub proof fn lemma_counts(&self)
        requires
            self.wf(),
        ensures
            self@.dom().finite(),
            forall|token: Seq<char>| #[trigger]
                self@.contains_key(token) ==> 1 <= self@[token] <= u64::MAX,
    {
        self.lemma_tokens();
    }

    /// A builder that has seen no token.
    pub fn new() -> (builder: Self)
        ensures
            builder.wf(),
            builder@ == no_counts(),
    {
        TokenDistributionBuilder {
            index: TokenIndex::new(),
            tokens: Vec::new(),
            occurrences: Vec::new(),
        }
    }

    /// Whether `build` can be called: whether `WeightedAliasIndex` takes the counts.
    pub fn can_build(&self) -> (can: bool)
        requires
            self.wf(),
        ensures
            can == counts_indexable(self@),
    {
        let n = self.occurrences.len();
        proof {
            self.lemma_tokens();
        }
        if n == 0 || n > u32::MAX as usize {
            return false;
        }
        let limit = u64::MAX / (n as u64);
        let mut i: usize = 0;
        while i < n
            invariant
                self.wf(),
                n == self.occurrences.len(),
                0 < n <= u32::MAX,
                limit as nat == u64::MAX as nat / (n as nat),
                0 <= i <= n,
                forall|j: int| 0 <= j < i ==> #[trigger] self.occurrences[j] <= limit,
            decreases n - i,
        {
            if self.occurrences[i] > limit {
                proof {
                    self.lemma_tokens();
                    assert(self@.contains_key(self.tokens[i as int]@));
                }
                return false;
            }
            i += 1;
        }
        true
    }

    /// Creates a weighted distribution for the likelihood of tokens to appear.
    ///
    /// No token may have been left out: a distribution has at least one
    /// choice. And `WeightedAliasIndex` must take the counts, which
    /// `can_build` tests.
    pub fn build(self) -> (distribution: TokenDistribution)
        requires
            self.wf(),
            counts_indexable(self@),
        ensures
            distribution.wf(),
            distribution@ == self@,
    {
        proof {
            self.lemma_tokens();
            assert forall|i: int| 0 <= i < self.occurrences.len() implies #[trigger]
                self.occurrences[i] as nat <= u64::MAX as nat / self.occurrences@.len() by {
                assert(self@.contains_key(self.tokens[i]@));
            }
            assert(self.occurrences[0] > 0);
        }
        let distribution = TokenDistribution {
            dist: alias_table(self.occurrences),
            choices: self.tokens,
        };
        proof {
            assert forall|token: Seq<char>| self@.contains_key(token) implies
                distribution@.contains_key(token) by {
                assert(distribution.holds_at(token, self.index@[token] as int));
            }
        }
        distribution
    }

    /// Counts one more occurrence of `token`, and returns how often it was seen with this one.
    pub(crate) fn record(&mut self, token: &str) -> (count: u64)
        requires
            old(self).wf(),
            count_of(old(self)@, token@) < u64::MAX,
        ensures
            final(self).wf(),
            final(self)@ == record(old(self)@, token@),
            count == count_of(old(self)@, token@) + 1,
    {
        match self.index.get(token) {
            Some(position) => {
                let count = self.occurrences[position] + 1;
                self.occurrences[position] = count;
                count
            },
            None => {
                self.index.insert(token.to_owned(), self.tokens.len());
                self.tokens.push(token.to_owned());
                self.occurrences.push(1);
                1
            },
        }
    }

    /// Add an occurrence of this token.
    ///
    /// Its count may not be `u64::MAX` already.
    pub fn add_token(&mut self, token: &str)
        requires
            old(self).wf(),
            count_of(old(self)@, token@) < u64::MAX,
        ensures
            final(self).wf(),
            final(self)@ == record(old(self)@, token@),
    {
        self.record(token);
    }
}

impl Clone for TokenDistributionBuilder {
    /// A valid builder with the same counts.
    fn clone(&self) -> (copy: Self)
        ensures
            self.wf() ==> copy.wf() && copy@ == self@,
    {
        TokenDistributionBuilder {
            index: self.index.clone(),
            tokens: self.tokens.clone(),
            occurrences: self.occurrences.clone(),
        }
    }
}

impl Default for TokenDistributionBuilder {
    fn default() -> (builder: Self)
        ensures
            builder.wf(),
            builder@ == no_counts(),
    {
        Self::new()
    }
}

} // verus!
