//! What a relation writes for the pairs of its players: how many shortcut
//! keys there are, which they are, and that each leads from one player to the
//! other.

use crate::concept::{RelationSiblingEdge, Thing, Type};
use crate::storage::{
    one_sibling, pairs_of, sibling_at, sibling_edge, sibling_puts, siblings_prefix, RecordKind,
};
use vstd::prelude::*;

verus! {

/// How many pairs `n` items have.
pub open spec fn pair_count(n: int) -> int
    decreases n,
{
    if n <= 0 {
        0
    } else {
        n - 1 + pair_count(n - 1)
    }
}

/// The place, among `n` items, of the first item of the pair at place `p`.
pub open spec fn first_of_pair(n: int, p: int) -> int
    decreases n,
{
    if n <= 1 || p < n - 1 {
        0
    } else {
        1 + first_of_pair(n - 1, p - (n - 1))
    }
}

/// The place, among `n` items, of the second item of the pair at place `p`.
pub open spec fn second_of_pair(n: int, p: int) -> int
    decreases n,
{
    if n <= 1 {
        0
    } else if p < n - 1 {
        p + 1
    } else {
        1 + second_of_pair(n - 1, p - (n - 1))
    }
}

/// The place, among the pairs of `n` items, of the pair of the items at
/// the places `i` and `j`.
pub open spec fn place_of_pair(n: int, i: int, j: int) -> int
    decreases i,
{
    if i <= 0 {
        j - 1
    } else {
        n - 1 + place_of_pair(n - 1, i - 1, j - 1)
    }
}

/// `n` items have `n * (n - 1) / 2` pairs.
pub proof fn lemma_pair_count(n: int)
    requires
        0 <= n,
    ensures
        2 * pair_count(n) == n * (n - 1),
    decreases n,
{
    if n > 0 {
        let m = n - 1;
        lemma_pair_count(m);
        let product = m * (m - 1);
        assert(2 * m + product == n * (n - 1)) by (nonlinear_arith)
            requires
                product == m * (m - 1),
                m == n - 1,
        ;
    } else {
        assert(n * (n - 1) == 0) by (nonlinear_arith)
            requires
                n == 0,
        ;
    }
}

/// A sequence has as many pairs as its length says.
pub proof fn lemma_pairs_len<T>(items: Seq<T>)
    ensures
        pairs_of(items).len() == pair_count(items.len() as int),
    decreases items.len(),
{
    if items.len() > 0 {
        lemma_pairs_len(items.drop_first());
    }
}

/// The pair at a place is made of two items of the sequence, the earlier
/// one first.
pub proof fn lemma_pair_at<T>(items: Seq<T>, p: int)
    requires
        0 <= p < pairs_of(items).len(),
    ensures
        0 <= first_of_pair(items.len() as int, p) < second_of_pair(items.len() as int, p)
            < items.len(),
        pairs_of(items)[p] == (
            items[first_of_pair(items.len() as int, p)],
            items[second_of_pair(items.len() as int, p)],
        ),
    decreases items.len(),
{
    let n = items.len() as int;
    if n > 0 {
        let rest = items.drop_first();
        if p >= n - 1 {
            lemma_pair_at(rest, p - (n - 1));
        }
    }
}

/// Every two places have their pair, and the pair has one place only.
pub proof fn lemma_place_of_pair(n: int, i: int, j: int)
    requires
        0 <= i < j < n,
    ensures
        0 <= place_of_pair(n, i, j) < pair_count(n),
        first_of_pair(n, place_of_pair(n, i, j)) == i,
        second_of_pair(n, place_of_pair(n, i, j)) == j,
    decreases i,
{
    if i > 0 {
        lemma_place_of_pair(n - 1, i - 1, j - 1);
    } else {
        lemma_pair_count_grows(n - 1);
    }
}

proof fn lemma_pair_count_grows(n: int)
    ensures
        0 <= pair_count(n),
    decreases n,
{
    if n > 0 {
        lemma_pair_count_grows(n - 1);
    }
}

/// The pair at a place is the pair that has this place.
pub proof fn lemma_pair_of_place(n: int, p: int)
    requires
        0 <= p < pair_count(n),
    ensures
        place_of_pair(n, first_of_pair(n, p), second_of_pair(n, p)) == p,
        0 <= first_of_pair(n, p) < second_of_pair(n, p) < n,
    decreases n,
{
    if n <= 1 {
        assert(pair_count(n) <= 0) by {
            if n == 1 {
                assert(pair_count(0) == 0);
            }
        }
    } else if p >= n - 1 {
        lemma_pair_of_place(n - 1, p - (n - 1));
    }
}

/// The shortcut that leads from the player `from` to the player `to` of
/// `rel`.
pub open spec fn shortcut(rel: Thing, from: (Type, Thing), to: (Type, Thing)) -> RelationSiblingEdge {
    sibling_edge(rel, (from, to))
}

/// The key of the record of the shortcut from `from` to `to`.
pub open spec fn shortcut_put(rel: Thing, from: (Type, Thing), to: (Type, Thing)) -> (
    RecordKind,
    Seq<u8>,
) {
    (RecordKind::RelationSibling, shortcut(rel, from, to).forward_encoding())
}

/// The key of a shortcut begins with the prefix that a scan for the
/// siblings of its first player seeks, and it gives the second player.
pub proof fn lemma_shortcut_leads_to_sibling(rel: Thing, from: (Type, Thing), to: (Type, Thing))
    ensures
        siblings_prefix(from.1, from.0, rel.type_).is_prefix_of(
            shortcut(rel, from, to).forward_encoding(),
        ),
        sibling_at(shortcut(rel, from, to).forward_encoding()) == Some(to.1),
        one_sibling(from.1, from.0, rel.type_, Some(shortcut(rel, from, to).forward_encoding()))
            == Some(to.1),
{
    let edge = shortcut(rel, from, to);
    let key = edge.forward_encoding();
    let prefix = siblings_prefix(from.1, from.0, rel.type_);
    edge.lemma_decoding_of_encoding();
    from.1.lemma_encoding_len();
    from.0.lemma_encoding_len();
    rel.lemma_encoding_len();
    rel.type_.lemma_encoding_len();
    to.0.lemma_encoding_len();
    to.1.lemma_encoding_len();
    assert(prefix =~= key.subrange(0, prefix.len() as int));
}

/// A relation with `k` players writes `k * (k - 1)` shortcut keys.
pub proof fn lemma_shortcut_count(rel: Thing, players: Seq<(Type, Thing)>)
    ensures
        sibling_puts(rel, pairs_of(players)).len() == players.len() * (players.len() - 1),
{
    lemma_pairs_len(players);
    lemma_pair_count(players.len() as int);
}

/// For every two different players of a relation, the relation writes the
/// shortcut from the one to the other.
pub proof fn lemma_shortcut_is_written(rel: Thing, players: Seq<(Type, Thing)>, i: int, j: int)
    requires
        0 <= i < players.len(),
        0 <= j < players.len(),
        i != j,
    ensures
        sibling_puts(rel, pairs_of(players)).contains(shortcut_put(rel, players[i], players[j])),
{
    let n = players.len() as int;
    let pairs = pairs_of(players);
    let puts = sibling_puts(rel, pairs);
    lemma_pairs_len(players);
    if i < j {
        lemma_place_of_pair(n, i, j);
        let p = place_of_pair(n, i, j);
        lemma_pair_at(players, p);
        assert(pairs[p] == (players[i], players[j]));
        assert(puts[2 * p] == shortcut_put(rel, players[i], players[j]));
    } else {
        lemma_place_of_pair(n, j, i);
        let p = place_of_pair(n, j, i);
        lemma_pair_at(players, p);
        assert(pairs[p] == (players[j], players[i]));
        shortcut(rel, players[j], players[i]).lemma_backward_swaps_endpoints();
        assert(puts[2 * p + 1] == shortcut_put(rel, players[i], players[j]));
    }
}

/// Every shortcut key that a relation writes is the shortcut from one of
/// its players to another.
pub proof fn lemma_written_is_shortcut(rel: Thing, players: Seq<(Type, Thing)>, k: int)
    requires
        0 <= k < sibling_puts(rel, pairs_of(players)).len(),
    ensures
        ({
            let (i, j) = ends_of_put(players.len() as int, k);
            &&& 0 <= i < players.len()
            &&& 0 <= j < players.len()
            &&& i != j
            &&& sibling_puts(rel, pairs_of(players))[k] == shortcut_put(rel, players[i], players[j])
        }),
        0 <= k / 2 < pair_count(players.len() as int),
{
    let n = players.len() as int;
    let pairs = pairs_of(players);
    lemma_pairs_len(players);
    let p = k / 2;
    lemma_pair_at(players, p);
    let i = first_of_pair(n, p);
    let j = second_of_pair(n, p);
    assert(pairs[p] == (players[i], players[j]));
    if k % 2 == 1 {
        shortcut(rel, players[i], players[j]).lemma_backward_swaps_endpoints();
    }
}

/// Where no player of a relation is named twice, no shortcut key is written
/// twice: the `k * (k - 1)` keys are that many different keys.
pub proof fn lemma_shortcuts_are_distinct(rel: Thing, players: Seq<(Type, Thing)>)
    requires
        players.no_duplicates(),
    ensures
        sibling_puts(rel, pairs_of(players)).no_duplicates(),
{
    let n = players.len() as int;
    let puts = sibling_puts(rel, pairs_of(players));
    assert forall|k: int, l: int| 0 <= k < puts.len() && 0 <= l < puts.len() && k
        != l implies puts[k] != puts[l] by {
        lemma_different_places_different_keys(rel, players, k, l);
    }
}

proof fn lemma_different_places_different_keys(
    rel: Thing,
    players: Seq<(Type, Thing)>,
    k: int,
    l: int,
)
    requires
        players.no_duplicates(),
        0 <= k < sibling_puts(rel, pairs_of(players)).len(),
        0 <= l < sibling_puts(rel, pairs_of(players)).len(),
        k != l,
    ensures
        sibling_puts(rel, pairs_of(players))[k] != sibling_puts(rel, pairs_of(players))[l],
{
    let n = players.len() as int;
    let puts = sibling_puts(rel, pairs_of(players));
    lemma_written_is_shortcut(rel, players, k);
    lemma_written_is_shortcut(rel, players, l);
    let (i, j) = ends_of_put(n, k);
    let (a, b) = ends_of_put(n, l);
    let from_k = shortcut(rel, players[i], players[j]);
    let from_l = shortcut(rel, players[a], players[b]);
    from_k.lemma_decoding_of_encoding();
    from_l.lemma_decoding_of_encoding();
    if puts[k] == puts[l] {
        assert(from_k.forward_encoding() == from_l.forward_encoding());
        assert(from_k == from_l);
        assert(players[i] == players[a]);
        assert(players[j] == players[b]);
        assert(i == a && j == b);
        lemma_pair_of_place(n, k / 2);
        lemma_pair_of_place(n, l / 2);
        assert(false);
    }
}

/// The places of the two players that the shortcut put at place `k`
/// leads from and to.
pub open spec fn ends_of_put(n: int, k: int) -> (int, int) {
    if k % 2 == 0 {
        (first_of_pair(n, k / 2), second_of_pair(n, k / 2))
    } else {
        (second_of_pair(n, k / 2), first_of_pair(n, k / 2))
    }
}

/// A relation with three different players writes six shortcut keys, all
/// different.
pub proof fn lemma_three_players_six_shortcuts(
    rel: Thing,
    first: (Type, Thing),
    second: (Type, Thing),
    third: (Type, Thing),
)
    requires
        first != second,
        first != third,
        second != third,
    ensures
        sibling_puts(rel, pairs_of(seq![first, second, third])).len() == 6,
        sibling_puts(rel, pairs_of(seq![first, second, third])).no_duplicates(),
{
    let players = seq![first, second, third];
    lemma_shortcut_count(rel, players);
    lemma_shortcuts_are_distinct(rel, players);
    assert(players.len() * (players.len() - 1) == 6) by (nonlinear_arith)
        requires
            players.len() == 3,
    ;
}

} // verus!
