//! The mathematical model of a second-order Markov chain over tokens.
//!
//! A token is modelled by its text, a context by the texts of two consecutive
//! tokens, and what was learnt by a table that gives, for each context that
//! was seen, how often each token followed it. The builders and the chain are
//! specified against these functions.

use vstd::prelude::*;

verus! {

/// How often each token was seen.
pub type Counts = Map<Seq<char>, nat>;

/// Two consecutive tokens.
pub type Context = (Seq<char>, Seq<char>);

/// For each context that was seen, how often each token followed it.
pub type Table = Map<Context, Counts>;

/// The counts before any token was seen.
pub open spec fn no_counts() -> Counts {
    Map::empty()
}

/// The table before any pair was seen.
pub open spec fn empty_table() -> Table {
    Map::empty()
}

/// How often `token` was seen: zero where it never was.
pub open spec fn count_of(counts: Counts, token: Seq<char>) -> nat {
    if counts.contains_key(token) {
        counts[token]
    } else {
        0
    }
}

/// The counts after `token` was seen once more.
pub open spec fn record(counts: Counts, token: Seq<char>) -> Counts {
    counts.insert(token, count_of(counts, token) + 1)
}

/// What followed `context` so far: nothing where it was never seen.
pub open spec fn counts_at(table: Table, context: Context) -> Counts {
    if table.contains_key(context) {
        table[context]
    } else {
        no_counts()
    }
}

/// The table after `next` was seen once more behind `context`.
pub open spec fn observe(table: Table, context: Context, next: Seq<char>) -> Table {
    table.insert(context, record(counts_at(table, context), next))
}

/// The table after every three consecutive tokens of `tokens` were observed,
/// from the first to the last. Fewer than three tokens leave it as it is.
pub open spec fn feed(table: Table, tokens: Seq<Seq<char>>) -> Table
    decreases tokens.len(),
{
    if tokens.len() < 3 {
        table
    } else {
        let n = tokens.len() as int;
        observe(feed(table, tokens.drop_last()), (tokens[n - 3], tokens[n - 2]), tokens[n - 1])
    }
}

/// The pairs in the order in which they were first seen, after `context` was
/// seen: it stands last where it is new, and the order is as before where it
/// is not.
pub open spec fn note(order: Seq<Context>, context: Context) -> Seq<Context> {
    if order.contains(context) {
        order
    } else {
        order.push(context)
    }
}

/// The pairs in the order in which they were first seen, after every three
/// consecutive tokens of `tokens` were observed: the pairs of `order`, and
/// behind them each pair of tokens that a third token follows, where it
/// stands first in `tokens`.
pub open spec fn first_seen(order: Seq<Context>, tokens: Seq<Seq<char>>) -> Seq<Context>
    decreases tokens.len(),
{
    if tokens.len() < 3 {
        order
    } else {
        let n = tokens.len() as int;
        note(first_seen(order, tokens.drop_last()), (tokens[n - 3], tokens[n - 2]))
    }
}

/// Every count of the table can grow by `more` and still be held in a `u64`.
pub open spec fn has_room(table: Table, more: nat) -> bool {
    forall|context: Context, token: Seq<char>|
        table.contains_key(context) && #[trigger] table[context].contains_key(token)
            ==> table[context][token] + more <= u64::MAX
}

/// Every count of the table can be held in a `u64`.
pub open spec fn fits(table: Table) -> bool {
    has_room(table, 0)
}

/// An alias index can be made of these counts: there is at least one, there
/// are at most `u32::MAX`, and none is above `u64::MAX` divided by their
/// number.
pub open spec fn counts_indexable(counts: Counts) -> bool {
    &&& counts.dom().finite()
    &&& 0 < counts.len() <= u32::MAX
    &&& forall|token: Seq<char>| #[trigger]
        counts.contains_key(token) ==> counts[token] <= u64::MAX as nat / counts.len()
}

/// An alias index can be made for every context of the table.
pub open spec fn table_indexable(table: Table) -> bool {
    forall|context: Context| #[trigger]
        table.contains_key(context) ==> counts_indexable(table[context])
}

/// `big` holds every count of `small`, and none of them is lower in it.
pub open spec fn covers(big: Table, small: Table) -> bool {
    forall|context: Context, token: Seq<char>|
        small.contains_key(context) && #[trigger] small[context].contains_key(token) ==> {
            &&& big.contains_key(context)
            &&& big[context].contains_key(token)
            &&& small[context][token] <= big[context][token]
        }
}

/// Observing raises one count by one and lowers none.
pub proof fn lemma_observe_covers(table: Table, context: Context, next: Seq<char>)
    ensures
        covers(observe(table, context, next), table),
{
}

/// What was fed a prefix of the tokens is covered by what was fed all of them.
pub proof fn lemma_feed_covers_prefix(table: Table, tokens: Seq<Seq<char>>, k: int)
    requires
        0 <= k <= tokens.len(),
    ensures
        covers(feed(table, tokens), feed(table, tokens.take(k))),
    decreases tokens.len() - k,
{
    if k == tokens.len() {
        assert(tokens.take(k) =~= tokens);
    } else if tokens.len() < 3 {
    } else {
        let n = tokens.len() as int;
        let shorter = tokens.drop_last();
        lemma_feed_covers_prefix(table, shorter, k);
        assert(shorter.take(k) =~= tokens.take(k));
        lemma_observe_covers(feed(table, shorter), (tokens[n - 3], tokens[n - 2]), tokens[n - 1]);
    }
}

/// Where the table fits after all the tokens, it fits after each prefix.
pub proof fn lemma_feed_prefix_fits(table: Table, tokens: Seq<Seq<char>>, k: int)
    requires
        0 <= k <= tokens.len(),
        fits(feed(table, tokens)),
    ensures
        fits(feed(table, tokens.take(k))),
{
    lemma_feed_covers_prefix(table, tokens, k);
}

/// One more token extends the table by one observation.
pub proof fn lemma_feed_step(table: Table, tokens: Seq<Seq<char>>, k: int)
    requires
        3 <= k <= tokens.len(),
    ensures
        feed(table, tokens.take(k)) == observe(
            feed(table, tokens.take(k - 1)),
            (tokens[k - 3], tokens[k - 2]),
            tokens[k - 1],
        ),
{
    assert(tokens.take(k).drop_last() =~= tokens.take(k - 1));
}

/// One more token notes one more pair.
pub proof fn lemma_first_seen_step(order: Seq<Context>, tokens: Seq<Seq<char>>, k: int)
    requires
        3 <= k <= tokens.len(),
    ensures
        first_seen(order, tokens.take(k)) == note(
            first_seen(order, tokens.take(k - 1)),
            (tokens[k - 3], tokens[k - 2]),
        ),
{
    assert(tokens.take(k).drop_last() =~= tokens.take(k - 1));
}

/// A table whose counts can all grow by `more` fits after `more`
/// observations, that is after `more + 2` tokens.
pub proof fn lemma_feed_room(table: Table, tokens: Seq<Seq<char>>, more: nat)
    requires
        has_room(table, more),
        tokens.len() <= more + 2,
        more <= u64::MAX,
    ensures
        fits(feed(table, tokens)),
        tokens.len() >= 2 ==> has_room(feed(table, tokens), (more + 2 - tokens.len()) as nat),
    decreases tokens.len(),
{
    if tokens.len() >= 3 {
        lemma_feed_room(table, tokens.drop_last(), more);
    }
}

/// `next` was seen behind `context`.
pub open spec fn follows(table: Table, context: Context, next: Seq<char>) -> bool {
    table.contains_key(context) && table[context].contains_key(next)
}

/// The two tokens that stand before the next one, after `out` was generated
/// from `prev`: the last two of `prev` and `out` together.
pub open spec fn window(prev: Context, out: Seq<Seq<char>>) -> Context {
    if out.len() == 0 {
        prev
    } else if out.len() == 1 {
        (prev.1, out[0])
    } else {
        (out[out.len() - 2], out[out.len() - 1])
    }
}

/// Each token of `out` was seen behind the two tokens before it, where `prev`
/// stands before `out`.
pub open spec fn is_walk(table: Table, prev: Context, out: Seq<Seq<char>>) -> bool {
    forall|i: int|
        0 <= i < out.len() ==> follows(table, window(prev, #[trigger] out.take(i)), out[i])
}

/// `out` was generated from `prev` by steps of two kinds. Where the two tokens
/// before the next one were seen together, the next token is one that was seen
/// behind them. Where they were not, and only after a first token, the next
/// two tokens are a pair that was seen.
pub open spec fn is_restart_walk(table: Table, prev: Context, out: Seq<Seq<char>>) -> bool
    decreases out.len(),
{
    if out.len() == 0 {
        true
    } else {
        let n = out.len() as int;
        ||| {
            &&& is_restart_walk(table, prev, out.take(n - 1))
            &&& follows(table, window(prev, out.take(n - 1)), out[n - 1])
        }
        ||| {
            &&& n >= 3
            &&& is_restart_walk(table, prev, out.take(n - 2))
            &&& !table.contains_key(window(prev, out.take(n - 2)))
            &&& table.contains_key((out[n - 2], out[n - 1]))
        }
    }
}

/// `token` is the left token of a pair that was seen.
pub open spec fn starts_pair(table: Table, token: Seq<char>) -> bool {
    exists|right: Seq<char>| table.contains_key((token, right))
}

/// `out` holds the `n` tokens of a walk with restarts from `prev`. Where the
/// last step is a restart and only one token is missing, `out` ends with the
/// left token of the pair.
pub open spec fn is_generation(table: Table, prev: Context, out: Seq<Seq<char>>, n: nat) -> bool {
    &&& out.len() == n
    &&& {
        ||| is_restart_walk(table, prev, out)
        ||| {
            &&& n >= 2
            &&& is_restart_walk(table, prev, out.drop_last())
            &&& !table.contains_key(window(prev, out.drop_last()))
            &&& starts_pair(table, out.last())
        }
    }
}

} // verus!
