//! Hash indices from tokens and token pairs to positions in a vector.
//!
//! The builders and the chain keep their entries in vectors, in the order in
//! which they were first seen, and find them again through a hash map of
//! [`hashbrown`]. The maps are not verified: this module states what is
//! assumed of them, and what it means that an index finds the entries of a
//! vector.

use crate::token::{Token, TokenPair, TokenPairRef};
use vstd::prelude::*;

verus! {

/// A `hashbrown::HashMap` from tokens to positions.
#[verifier::external_body]
#[derive(Debug)]
pub struct TokenIndex {
    map: hashbrown::HashMap<Token, usize>,
}

/// A `hashbrown::HashMap` from token pairs to positions.
#[verifier::external_body]
#[derive(Debug)]
pub struct PairIndex {
    map: hashbrown::HashMap<TokenPair, usize>,
}

/// The entries that a token index holds, each key by its text.
pub uninterp spec fn token_index_entries(index: TokenIndex) -> Map<Seq<char>, usize>;

/// The entries that a pair index holds, each key by the text of its two tokens.
pub uninterp spec fn pair_index_entries(index: PairIndex) -> Map<(Seq<char>, Seq<char>), usize>;

impl View for TokenIndex {
    type V = Map<Seq<char>, usize>;

    open spec fn view(&self) -> Map<Seq<char>, usize> {
        token_index_entries(*self)
    }
}

impl View for PairIndex {
    type V = Map<(Seq<char>, Seq<char>), usize>;

    open spec fn view(&self) -> Map<(Seq<char>, Seq<char>), usize> {
        pair_index_entries(*self)
    }
}

impl Clone for TokenIndex {
    /// `HashMap::clone`: a map with the same entries.
    #[verifier::external_body]
    fn clone(&self) -> (copy: Self)
        ensures
            token_index_entries(copy) == token_index_entries(*self),
    {
        TokenIndex { map: self.map.clone() }
    }
}

impl Clone for PairIndex {
    /// `HashMap::clone`: a map with the same entries.
    #[verifier::external_body]
    fn clone(&self) -> (copy: Self)
        ensures
            pair_index_entries(copy) == pair_index_entries(*self),
    {
        PairIndex { map: self.map.clone() }
    }
}

impl TokenIndex {
    /// The index holds the tokens of the vector and nothing else, each with
    /// its position. So no token stands twice in the vector.
    pub open spec fn finds(&self, tokens: Seq<Token>) -> bool {
        &&& self@.dom().finite()
        &&& self@.dom().len() == tokens.len()
        &&& forall|i: int|
            0 <= i < tokens.len() ==> {
                &&& self@.contains_key(#[trigger] tokens[i]@)
                &&& self@[tokens[i]@] == i
            }
        &&& forall|token: Seq<char>| #[trigger]
            self@.contains_key(token) ==> {
                &&& self@[token] < tokens.len()
                &&& tokens[self@[token] as int]@ == token
            }
    }

    /// `HashMap::new`: a map without entries.
    #[verifier::external_body]
    pub(crate) fn new() -> (made: Self)
        ensures
            token_index_entries(made) =~= Map::empty(),
    {
        TokenIndex { map: hashbrown::HashMap::new() }
    }

    /// `HashMap::get` with a string slice as the key: the position stored
    /// under the token that has the text of `token`, if there is one.
    #[verifier::external_body]
    pub(crate) fn get(&self, token: &str) -> (position: Option<usize>)
        ensures
            position == if token_index_entries(*self).contains_key(token@) {
                Some(token_index_entries(*self)[token@])
            } else {
                None
            },
    {
        self.map.get(token).copied()
    }

    /// `HashMap::insert`: afterwards the token is bound to `position`, whether
    /// or not it was present, and every other entry is as before.
    #[verifier::external_body]
    pub(crate) fn insert(&mut self, token: Token, position: usize)
        ensures
            token_index_entries(*final(self)) == token_index_entries(*old(self)).insert(
                token@,
                position,
            ),
    {
        self.map.insert(token, position);
    }
}

impl PairIndex {
    /// The index holds the pairs of the vector and nothing else, each with
    /// its position. So no pair stands twice in the vector.
    pub open spec fn finds(&self, pairs: Seq<TokenPair>) -> bool {
        &&& self@.dom().finite()
        &&& self@.dom().len() == pairs.len()
        &&& forall|i: int|
            0 <= i < pairs.len() ==> {
                &&& self@.contains_key(#[trigger] pairs[i]@)
                &&& self@[pairs[i]@] == i
            }
        &&& forall|pair: (Seq<char>, Seq<char>)| #[trigger]
            self@.contains_key(pair) ==> {
                &&& self@[pair] < pairs.len()
                &&& pairs[self@[pair] as int]@ == pair
            }
    }

    /// `HashMap::new`: a map without entries.
    #[verifier::external_body]
    pub(crate) fn new() -> (made: Self)
        ensures
            pair_index_entries(made) =~= Map::empty(),
    {
        PairIndex { map: hashbrown::HashMap::new() }
    }

    /// `HashMap::get` with a borrowed pair as the key: the position stored
    /// under the pair that has the text of `pair`, if there is one. The
    /// borrowed pair hashes as the owned pair with the same text does, and it
    /// is `Equivalent` to that pair alone, so no owned pair is made for the
    /// lookup.
    #[verifier::external_body]
    pub(crate) fn get(&self, pair: &TokenPairRef<'_>) -> (position: Option<usize>)
        ensures
            position == if pair_index_entries(*self).contains_key(pair@) {
                Some(pair_index_entries(*self)[pair@])
            } else {
                None
            },
    {
        self.map.get(pair).copied()
    }

    /// `HashMap::insert`: afterwards the pair is bound to `position`, whether
    /// or not it was present, and every other entry is as before.
    #[verifier::external_body]
    pub(crate) fn insert(&mut self, pair: TokenPair, position: usize)
        ensures
            pair_index_entries(*final(self)) == pair_index_entries(*old(self)).insert(
                pair@,
                position,
            ),
    {
        self.map.insert(pair, position);
    }
}

} // verus!
