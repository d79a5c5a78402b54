//! What holds of every table that is fed tokens, said of the tokens themselves.
//!
//! [`feed`] says how a table grows with each token. The statements here say
//! what it holds in the end: which pairs, which tokens behind each pair, and
//! how often each.

use crate::model::{
    count_of, counts_at, counts_indexable, empty_table, feed, first_seen, follows, observe,
    table_indexable, Context, Table,
};
use vstd::prelude::*;
use vstd::set_lib::{lemma_int_range, lemma_set_subset_finite, set_int_range};

verus! {

/// The tokens at `i` and behind it are `context`, and a third token follows them.
pub open spec fn seen_at(tokens: Seq<Seq<char>>, i: int, context: Context) -> bool {
    0 <= i && i + 2 < tokens.len() && tokens[i] == context.0 && tokens[i + 1] == context.1
}

/// The tokens at `i` and behind it are `context`, and `next` follows them.
pub open spec fn observed_at(
    tokens: Seq<Seq<char>>,
    i: int,
    context: Context,
    next: Seq<char>,
) -> bool {
    seen_at(tokens, i, context) && tokens[i + 2] == next
}

/// The places at which `next` follows `context`.
pub open spec fn places(tokens: Seq<Seq<char>>, context: Context, next: Seq<char>) -> Set<int> {
    Set::new(|i: int| observed_at(tokens, i, context, next))
}

/// How often `next` follows `context` in `tokens`.
pub open spec fn occurrences(tokens: Seq<Seq<char>>, context: Context, next: Seq<char>) -> nat {
    places(tokens, context, next).len()
}

/// There are finitely many places, and fewer than there are tokens.
pub proof fn lemma_places_finite(tokens: Seq<Seq<char>>, context: Context, next: Seq<char>)
    ensures
        places(tokens, context, next).finite(),
        occurrences(tokens, context, next) <= tokens.len(),
        tokens.len() >= 2 ==> occurrences(tokens, context, next) <= tokens.len() - 2,
{
    let n = tokens.len() as int;
    let hi = if n >= 2 {
        n - 2
    } else {
        0
    };
    lemma_int_range(0, hi);
    lemma_set_subset_finite(set_int_range(0, hi), places(tokens, context, next));
    vstd::set_lib::lemma_len_subset(places(tokens, context, next), set_int_range(0, hi));
}

/// One more token adds the place before it, if `next` follows `context` there, and no other.
proof fn lemma_places_step(tokens: Seq<Seq<char>>, context: Context, next: Seq<char>)
    requires
        tokens.len() >= 3,
    ensures
        occurrences(tokens, context, next) == occurrences(tokens.drop_last(), context, next) + (
        if observed_at(tokens, tokens.len() - 3, context, next) {
            1nat
        } else {
            0nat
        }),
{
    let shorter = tokens.drop_last();
    let last = tokens.len() - 3;
    let before = places(shorter, context, next);
    let after = places(tokens, context, next);
    lemma_places_finite(shorter, context, next);
    if observed_at(tokens, last, context, next) {
        assert(after =~= before.insert(last));
    } else {
        assert(after =~= before);
    }
}

/// A fed table holds the pairs that it held before, and each pair of tokens
/// that a third token follows.
pub proof fn lemma_feed_contexts(table: Table, tokens: Seq<Seq<char>>, context: Context)
    ensures
        feed(table, tokens).contains_key(context) <==> table.contains_key(context) || exists|
            i: int,
        | seen_at(tokens, i, context),
    decreases tokens.len(),
{
    if tokens.len() >= 3 {
        let shorter = tokens.drop_last();
        let last = tokens.len() - 3;
        lemma_feed_contexts(table, shorter, context);
        assert forall|i: int| seen_at(shorter, i, context) implies seen_at(tokens, i, context) by {}
        if exists|i: int| seen_at(tokens, i, context) {
            let i = choose|i: int| seen_at(tokens, i, context);
            if i != last {
                assert(seen_at(shorter, i, context));
            }
        }
        if (tokens[last], tokens[last + 1]) == context {
            assert(seen_at(tokens, last, context));
        }
    }
}

/// Behind each pair, a fed table holds the tokens that it held before, and
/// each token that follows the pair.
pub proof fn lemma_feed_follows(
    table: Table,
    tokens: Seq<Seq<char>>,
    context: Context,
    next: Seq<char>,
)
    ensures
        follows(feed(table, tokens), context, next) <==> follows(table, context, next) || exists|
            i: int,
        | observed_at(tokens, i, context, next),
    decreases tokens.len(),
{
    if tokens.len() >= 3 {
        let shorter = tokens.drop_last();
        let last = tokens.len() - 3;
        lemma_feed_follows(table, shorter, context, next);
        assert forall|i: int| observed_at(shorter, i, context, next) implies observed_at(
            tokens,
            i,
            context,
            next,
        ) by {}
        if exists|i: int| observed_at(tokens, i, context, next) {
            let i = choose|i: int| observed_at(tokens, i, context, next);
            if i != last {
                assert(observed_at(shorter, i, context, next));
            }
        }
        if (tokens[last], tokens[last + 1]) == context && tokens[last + 2] == next {
            assert(observed_at(tokens, last, context, next));
        }
    }
}

/// Each count of a fed table is what it was before and the number of places
/// at which the token follows the pair.
pub proof fn lemma_feed_counts(
    table: Table,
    tokens: Seq<Seq<char>>,
    context: Context,
    next: Seq<char>,
)
    ensures
        count_of(counts_at(feed(table, tokens), context), next) == count_of(
            counts_at(table, context),
            next,
        ) + occurrences(tokens, context, next),
    decreases tokens.len(),
{
    if tokens.len() >= 3 {
        lemma_feed_counts(table, tokens.drop_last(), context, next);
        lemma_places_step(tokens, context, next);
    } else {
        assert(places(tokens, context, next) =~= Set::empty());
    }
}

/// What a table holds after it was fed the tokens, said at once: the pairs
/// that it held before and each pair of tokens that a third token follows,
/// behind each pair the tokens that stood there before and each token that
/// follows the pair, and for each of them the count that it had before and
/// the number of places at which it follows the pair.
pub open spec fn learnt(table: Table, tokens: Seq<Seq<char>>) -> Table {
    Map::new(
        |context: Context|
            table.contains_key(context) || exists|i: int| seen_at(tokens, i, context),
        |context: Context|
            Map::new(
                |next: Seq<char>|
                    follows(table, context, next) || exists|i: int|
                        observed_at(tokens, i, context, next),
                |next: Seq<char>|
                    count_of(counts_at(table, context), next) + occurrences(tokens, context, next),
            ),
    )
}

/// Feeding a table token by token gives the table that `learnt` describes.
pub proof fn lemma_feed_learns(table: Table, tokens: Seq<Seq<char>>)
    ensures
        feed(table, tokens) == learnt(table, tokens),
{
    let fed = feed(table, tokens);
    let said = learnt(table, tokens);
    assert forall|context: Context| fed.contains_key(context) == said.contains_key(context) by {
        lemma_feed_contexts(table, tokens, context);
    }
    assert forall|context: Context| #[trigger] fed.contains_key(context) implies fed[context]
        =~= said[context] by {
        assert forall|next: Seq<char>|
            fed[context].contains_key(next) == said[context].contains_key(next) by {
            lemma_feed_follows(table, tokens, context, next);
        }
        assert forall|next: Seq<char>| #[trigger]
            fed[context].contains_key(next) implies fed[context][next] == said[context][next] by {
            lemma_feed_counts(table, tokens, context, next);
        }
    }
}

/// The pairs in the order first seen are the pairs that were there before, and
/// each pair of tokens that a third token follows.
pub proof fn lemma_first_seen_contexts(
    order: Seq<Context>,
    tokens: Seq<Seq<char>>,
    context: Context,
)
    ensures
        first_seen(order, tokens).contains(context) <==> order.contains(context) || exists|
            i: int,
        | seen_at(tokens, i, context),
    decreases tokens.len(),
{
    if tokens.len() >= 3 {
        let shorter = tokens.drop_last();
        let last = tokens.len() - 3;
        let before = first_seen(order, shorter);
        lemma_first_seen_contexts(order, shorter, context);
        assert forall|i: int| seen_at(shorter, i, context) implies seen_at(tokens, i, context) by {}
        if exists|i: int| seen_at(tokens, i, context) {
            let i = choose|i: int| seen_at(tokens, i, context);
            if i != last {
                assert(seen_at(shorter, i, context));
            }
        }
        let noted = (tokens[last], tokens[last + 1]);
        if !before.contains(noted) {
            assert(before.push(noted)[before.len() as int] == noted);
            if before.contains(context) {
                let i = choose|i: int| 0 <= i < before.len() && before[i] == context;
                assert(before.push(noted)[i] == context);
            }
        }
        if noted == context {
            assert(seen_at(tokens, last, context));
        }
    }
}

/// No pair stands twice in the order first seen, where none did before.
pub proof fn lemma_first_seen_distinct(order: Seq<Context>, tokens: Seq<Seq<char>>)
    requires
        order.no_duplicates(),
    ensures
        first_seen(order, tokens).no_duplicates(),
    decreases tokens.len(),
{
    if tokens.len() >= 3 {
        lemma_first_seen_distinct(order, tokens.drop_last());
    }
}

/// A pair that no third token follows anywhere is not in the table that was
/// fed the tokens alone.
pub proof fn lemma_unseen_context(tokens: Seq<Seq<char>>, context: Context)
    requires
        forall|i: int| !seen_at(tokens, i, context),
    ensures
        !feed(empty_table(), tokens).contains_key(context),
{
    lemma_feed_contexts(empty_table(), tokens, context);
}

/// The table that was fed three tokens or more, and nothing else, holds a
/// pair: a chain can be built of it.
pub proof fn lemma_fed_table_holds_a_pair(tokens: Seq<Seq<char>>)
    requires
        tokens.len() >= 3,
    ensures
        feed(empty_table(), tokens).contains_key((tokens[0], tokens[1])),
        follows(feed(empty_table(), tokens), (tokens[0], tokens[1]), tokens[2]),
{
    assert(observed_at(tokens, 0, (tokens[0], tokens[1]), tokens[2]));
    lemma_feed_follows(empty_table(), tokens, (tokens[0], tokens[1]), tokens[2]);
}

/// What holds of a table after `observations` observations: behind each pair
/// stand finitely many tokens but at least one, each was counted at least
/// once, and a count and the number of tokens beside it are together no more
/// than the observations.
pub open spec fn counted_within(table: Table, observations: nat) -> bool {
    &&& forall|context: Context| #[trigger]
        table.contains_key(context) ==> table[context].dom().finite() && table[context].len() >= 1
    &&& forall|context: Context, next: Seq<char>| #[trigger]
        follows(table, context, next) ==> 1 <= table[context][next] && table[context][next]
            + table[context].len() <= observations + 1
}

/// One more observation keeps the counts within the observations.
proof fn lemma_observe_counted_within(
    table: Table,
    observations: nat,
    context: Context,
    next: Seq<char>,
)
    requires
        counted_within(table, observations),
    ensures
        counted_within(observe(table, context, next), observations + 1),
{
    let before = counts_at(table, context);
    let after = observe(table, context, next);
    if table.contains_key(context) && !before.contains_key(next) {
        let other = before.dom().choose();
        assert(follows(table, context, other));
    }
    assert forall|c: Context, t: Seq<char>| #[trigger] follows(after, c, t) implies 1
        <= after[c][t] && after[c][t] + after[c].len() <= observations + 2 by {
        if c == context {
            if t != next {
                assert(follows(table, c, t));
            } else if before.contains_key(next) {
                assert(follows(table, c, t));
            }
        } else {
            assert(follows(table, c, t));
        }
    }
}

/// The table that was fed the tokens alone has its counts within the number
/// of observations, which is two less than that of the tokens.
proof fn lemma_feed_counted_within(tokens: Seq<Seq<char>>)
    ensures
        counted_within(
            feed(empty_table(), tokens),
            if tokens.len() >= 2 {
                (tokens.len() - 2) as nat
            } else {
                0
            },
        ),
    decreases tokens.len(),
{
    if tokens.len() >= 3 {
        let n = tokens.len() as int;
        lemma_feed_counted_within(tokens.drop_last());
        lemma_observe_counted_within(
            feed(empty_table(), tokens.drop_last()),
            (n - 3) as nat,
            (tokens[n - 3], tokens[n - 2]),
            tokens[n - 1],
        );
    }
}

/// An alias index can be made for every pair of a table that was fed no more
/// than `u32::MAX` observations, that is `u32::MAX + 2` tokens, and nothing
/// else: a chain can be built of every text of that length.
pub proof fn lemma_fed_table_indexable(tokens: Seq<Seq<char>>)
    requires
        tokens.len() <= u32::MAX + 2,
    ensures
        table_indexable(feed(empty_table(), tokens)),
{
    let table = feed(empty_table(), tokens);
    lemma_feed_counted_within(tokens);
    assert forall|context: Context| #[trigger] table.contains_key(context) implies counts_indexable(
        table[context],
    ) by {
        let counts = table[context];
        let some = counts.dom().choose();
        assert(follows(table, context, some));
        assert forall|next: Seq<char>| #[trigger] counts.contains_key(next) implies counts[next]
            <= u64::MAX as nat / counts.len() by {
            assert(follows(table, context, next));
            lemma_share_fits(counts[next], counts.len());
        }
    }
}

/// Two numbers that are together no more than 2^32 have a product that a `u64` holds.
proof fn lemma_share_fits(count: nat, others: nat)
    requires
        1 <= others,
        count + others <= 0x1_0000_0000,
    ensures
        count <= u64::MAX as nat / others,
{
    assert(count * others <= 0xffff_ffff_ffff_ffff) by (nonlinear_arith)
        requires
            count + others <= 0x1_0000_0000,
    ;
    assert(count <= 0xffff_ffff_ffff_ffff as nat / others) by (nonlinear_arith)
        requires
            count * others <= 0xffff_ffff_ffff_ffff,
            1 <= others,
    ;
}

/// What a builder learns from three tokens or more, and from no more than
/// `u32::MAX + 2`, where it had learnt nothing before. A chain can be built of
/// it: it holds a pair, and an alias index can be made for each pair. Its
/// pairs are the pairs of tokens that a third token follows, and behind each
/// pair stand the tokens that follow it somewhere, and no others.
pub proof fn lemma_fed_table_learns(tokens: Seq<Seq<char>>)
    requires
        3 <= tokens.len() <= u32::MAX + 2,
    ensures
        feed(empty_table(), tokens).dom().finite(),
        feed(empty_table(), tokens).len() > 0,
        table_indexable(feed(empty_table(), tokens)),
        forall|context: Context| #[trigger]
            feed(empty_table(), tokens).contains_key(context) <==> exists|i: int|
                seen_at(tokens, i, context),
        forall|context: Context, next: Seq<char>| #[trigger]
            follows(feed(empty_table(), tokens), context, next) <==> exists|i: int|
                observed_at(tokens, i, context, next),
{
    let table = feed(empty_table(), tokens);
    lemma_feed_finite(empty_table(), tokens);
    lemma_fed_table_holds_a_pair(tokens);
    lemma_fed_table_indexable(tokens);
    assert forall|context: Context| #[trigger]
        table.contains_key(context) <==> exists|i: int| seen_at(tokens, i, context) by {
        lemma_feed_contexts(empty_table(), tokens, context);
    }
    assert forall|context: Context, next: Seq<char>| #[trigger]
        follows(table, context, next) <==> exists|i: int|
            observed_at(tokens, i, context, next) by {
        lemma_feed_follows(empty_table(), tokens, context, next);
    }
}

/// Feeding adds finitely many pairs.
pub proof fn lemma_feed_finite(table: Table, tokens: Seq<Seq<char>>)
    requires
        table.dom().finite(),
    ensures
        feed(table, tokens).dom().finite(),
    decreases tokens.len(),
{
    if tokens.len() >= 3 {
        lemma_feed_finite(table, tokens.drop_last());
    }
}

} // verus!
