//! Dead simple text generation using Markov chains.
//!
//! This generator supports second order Markov chains, that is, it looks at two
//! tokens at a time and then guesses what the third might be (weighted depending on how likely
//! the three-token combination is in the source text). The randomness is built using a weighted
//! distribution (see [`rand_distr::weighted::WeightedAliasIndex`]). See [`token`] for more
//! information about what defines a token.
//!
//! `markovish` uses [`hashbrown`](https://crates.io/crates/hashbrown) internally for extra speed.
//! However, the default hasher used by `hashbrown` does not provide the same level of protection
//! against HashDoS attacks as the standard library hasher. If you are only going to use `markovish`
//! on texts you trust, you can ignore this.
//!
//! The library is verified with Verus. What a builder learns and what a chain may generate are
//! stated over the tables and walks of [`model`], and [`laws`] says of the tokens themselves what
//! a table holds after it was fed them. Three modules call the crates that are not verified, and
//! state what is assumed of them: `index` calls `hashbrown`, `sampling` calls `rand` and
//! `rand_distr`, and [`words`] calls `unicode_segmentation`.
//!
//! Random numbers are drawn from a [`rand::rngs::StdRng`], which the caller seeds.

pub mod chain;
pub mod distribution;
mod index;
pub mod laws;
pub mod model;
mod sampling;
pub mod token;
pub mod words;

pub use chain::{Chain, ChainBuilder, IntoChainBuilder};
