//! Prefix scans over keys that a sorted store hands out in order.
//!
//! A sorted store can seek to a point and then walk its keys in ascending
//! order. It promises no more than that order: the walk does not stop where
//! the keys cease to begin with the bytes that were sought. A scan for a
//! prefix therefore takes keys from the walk until the first one that lacks
//! the prefix. `lemma_scan_is_exact` shows that nothing is lost by stopping
//! there.

use crate::bytes::starts_with;
use vstd::prelude::*;

verus! {

/// The order in which a sorted store keeps its keys: byte by byte, a proper
/// prefix before its extensions.
pub open spec fn lex_le(a: Seq<u8>, b: Seq<u8>) -> bool
    decreases a.len(),
{
    if a.len() == 0 {
        true
    } else if b.len() == 0 {
        false
    } else if a[0] != b[0] {
        a[0] < b[0]
    } else {
        lex_le(a.drop_first(), b.drop_first())
    }
}

/// `keys` ascends, with no key twice.
pub open spec fn ascending(keys: Seq<Seq<u8>>) -> bool {
    forall|i: int, j: int|
        0 <= i < j < keys.len() ==> lex_le(#[trigger] keys[i], #[trigger] keys[j]) && keys[i]
            != keys[j]
}

/// What a walk from `start` hands out when the store holds `store`: every
/// key of the store at or after `start`, in ascending order.
pub open spec fn walk_of(store: Set<Seq<u8>>, start: Seq<u8>, keys: Seq<Seq<u8>>) -> bool {
    &&& ascending(keys)
    &&& forall|k: Seq<u8>| #[trigger] keys.contains(k) <==> store.contains(k) && lex_le(start, k)
}

/// The byte strings that the vectors of `keys` hold.
pub open spec fn key_seq(keys: Seq<Vec<u8>>) -> Seq<Seq<u8>> {
    Seq::new(keys.len(), |i: int| keys[i]@)
}

/// How many keys a scan for `prefix` takes from `keys`: those before the
/// first key that does not begin with `prefix`.
pub open spec fn run_len(keys: Seq<Seq<u8>>, prefix: Seq<u8>) -> nat
    decreases keys.len(),
{
    if keys.len() == 0 || !prefix.is_prefix_of(keys[0]) {
        0
    } else {
        1 + run_len(keys.drop_first(), prefix)
    }
}

/// The keys that a scan for `prefix` takes from `keys`.
pub open spec fn leading_run(keys: Seq<Seq<u8>>, prefix: Seq<u8>) -> Seq<Seq<u8>> {
    keys.take(run_len(keys, prefix) as int)
}

/// The run ends at `n`: the first `n` keys have the prefix and the next one,
/// if there is one, does not.
pub open spec fn run_ends_at(keys: Seq<Seq<u8>>, prefix: Seq<u8>, n: int) -> bool {
    &&& 0 <= n <= keys.len()
    &&& forall|i: int| 0 <= i < n ==> prefix.is_prefix_of(#[trigger] keys[i])
    &&& n < keys.len() ==> !prefix.is_prefix_of(keys[n])
}

/// `run_len` is where the run ends, and the run ends nowhere else.
pub proof fn lemma_run_len(keys: Seq<Seq<u8>>, prefix: Seq<u8>, n: int)
    ensures
        run_ends_at(keys, prefix, run_len(keys, prefix) as int),
        run_ends_at(keys, prefix, n) ==> n == run_len(keys, prefix),
    decreases keys.len(),
{
    if keys.len() == 0 || !prefix.is_prefix_of(keys[0]) {
        if run_ends_at(keys, prefix, n) && n > 0 {
            assert(prefix.is_prefix_of(keys[0]));
        }
    } else {
        let rest = keys.drop_first();
        lemma_run_len(rest, prefix, n - 1);
        let m = run_len(keys, prefix) as int;
        assert forall|i: int| 0 <= i < m implies prefix.is_prefix_of(#[trigger] keys[i]) by {
            if i > 0 {
                assert(keys[i] == rest[i - 1]);
            }
        }
        if m < keys.len() {
            assert(keys[m] == rest[m - 1]);
        }
        if run_ends_at(keys, prefix, n) {
            assert forall|i: int| 0 <= i < n - 1 implies prefix.is_prefix_of(
                #[trigger] rest[i],
            ) by {
                assert(rest[i] == keys[i + 1]);
            }
            if n < keys.len() {
                assert(rest[n - 1] == keys[n]);
            }
            assert(run_ends_at(rest, prefix, n - 1));
        }
    }
}

/// A scan needs no more of a walk than reaches the end of its run: what it
/// takes from the first `n` keys is what it takes from all, as soon as `n`
/// keys hold the run. A caller may stop reading a walk at the first key that
/// the scan does not admit.
pub proof fn lemma_run_of_cut_walk(keys: Seq<Seq<u8>>, prefix: Seq<u8>, n: int)
    requires
        run_len(keys, prefix) <= n <= keys.len(),
    ensures
        leading_run(keys.take(n), prefix) == leading_run(keys, prefix),
{
    let cut = keys.take(n);
    let end = run_len(keys, prefix) as int;
    lemma_run_len(keys, prefix, end);
    assert(run_ends_at(cut, prefix, end)) by {
        assert forall|i: int| 0 <= i < end implies prefix.is_prefix_of(#[trigger] cut[i]) by {
            assert(cut[i] == keys[i]);
        }
        if end < cut.len() {
            assert(cut[end] == keys[end]);
        }
    }
    lemma_run_len(cut, prefix, end);
    assert(cut.take(end) =~= keys.take(end));
}

/// Takes keys from `keys` until the first one that does not begin with
/// `prefix`.
pub fn exact_prefix(keys: Vec<Vec<u8>>, prefix: &[u8]) -> (run: Vec<Vec<u8>>)
    ensures
        key_seq(run@) == leading_run(key_seq(keys@), prefix@),
{
    let mut run = keys;
    let mut n: usize = 0;
    while n < run.len() && starts_with(run[n].as_slice(), prefix)
        invariant
            n <= run.len(),
            run == keys,
            forall|i: int| 0 <= i < n ==> prefix@.is_prefix_of(#[trigger] key_seq(keys@)[i]),
        decreases run.len() - n,
    {
        n = n + 1;
    }
    proof {
        lemma_run_len(key_seq(keys@), prefix@, n as int);
    }
    run.truncate(n);
    proof {
        assert(key_seq(run@) =~= leading_run(key_seq(keys@), prefix@));
    }
    run
}

/// Every byte string comes at or before itself.
pub proof fn lemma_lex_le_reflexive(a: Seq<u8>)
    ensures
        lex_le(a, a),
    decreases a.len(),
{
    if a.len() > 0 {
        lemma_lex_le_reflexive(a.drop_first());
    }
}

/// What comes at or before a second string, which comes at or before a
/// third, comes at or before the third.
pub proof fn lemma_lex_le_transitive(a: Seq<u8>, b: Seq<u8>, c: Seq<u8>)
    requires
        lex_le(a, b),
        lex_le(b, c),
    ensures
        lex_le(a, c),
    decreases a.len(),
{
    if a.len() > 0 && a[0] == b[0] && b[0] == c[0] {
        lemma_lex_le_transitive(a.drop_first(), b.drop_first(), c.drop_first());
    }
}

/// Two byte strings that come at or before each other are the same.
pub proof fn lemma_lex_le_antisymmetric(a: Seq<u8>, b: Seq<u8>)
    requires
        lex_le(a, b),
        lex_le(b, a),
    ensures
        a == b,
    decreases a.len(),
{
    if a.len() > 0 {
        lemma_lex_le_antisymmetric(a.drop_first(), b.drop_first());
        assert(a =~= seq![a[0]] + a.drop_first());
        assert(b =~= seq![b[0]] + b.drop_first());
    } else {
        assert(a =~= b);
    }
}

/// Of two byte strings one comes at or before the other.
pub proof fn lemma_lex_le_total(a: Seq<u8>, b: Seq<u8>)
    ensures
        lex_le(a, b) || lex_le(b, a),
    decreases a.len(),
{
    if a.len() > 0 && b.len() > 0 && a[0] == b[0] {
        lemma_lex_le_total(a.drop_first(), b.drop_first());
    }
}

/// A byte string comes at or before each of its extensions.
pub proof fn lemma_prefix_is_le(prefix: Seq<u8>, key: Seq<u8>)
    requires
        prefix.is_prefix_of(key),
    ensures
        lex_le(prefix, key),
    decreases prefix.len(),
{
    if prefix.len() > 0 {
        assert(prefix[0] == key.subrange(0, prefix.len() as int)[0]);
        assert(prefix.drop_first() =~= key.drop_first().subrange(0, prefix.len() - 1)) by {
            assert forall|i: int| 0 <= i < prefix.len() - 1 implies prefix.drop_first()[i]
                == key.drop_first()[i] by {
                assert(prefix[i + 1] == key.subrange(0, prefix.len() as int)[i + 1]);
            }
        }
        lemma_prefix_is_le(prefix.drop_first(), key.drop_first());
    }
}

/// In sorted order the extensions of a byte string lie together: a key
/// between the byte string and one of its extensions is an extension too.
pub proof fn lemma_between_has_prefix(prefix: Seq<u8>, low: Seq<u8>, high: Seq<u8>)
    requires
        lex_le(prefix, low),
        lex_le(low, high),
        prefix.is_prefix_of(high),
    ensures
        prefix.is_prefix_of(low),
    decreases prefix.len(),
{
    if prefix.len() > 0 {
        assert(prefix[0] == high.subrange(0, prefix.len() as int)[0]);
        assert(prefix.drop_first() =~= high.drop_first().subrange(0, prefix.len() - 1)) by {
            assert forall|i: int| 0 <= i < prefix.len() - 1 implies prefix.drop_first()[i]
                == high.drop_first()[i] by {
                assert(prefix[i + 1] == high.subrange(0, prefix.len() as int)[i + 1]);
            }
        }
        lemma_between_has_prefix(prefix.drop_first(), low.drop_first(), high.drop_first());
        assert(prefix =~= low.subrange(0, prefix.len() as int)) by {
            assert forall|i: int| 0 <= i < prefix.len() implies prefix[i] == low[i] by {
                if i > 0 {
                    assert(prefix.drop_first()[i - 1] == low.drop_first().subrange(
                        0,
                        prefix.len() - 1,
                    )[i - 1]);
                }
            }
        }
    } else {
        assert(prefix =~= low.subrange(0, 0));
    }
}

/// A scan loses nothing by stopping at the first key without the prefix.
/// When `keys` ascends and none of them comes before the prefix itself, the
/// keys that the scan takes are all the keys that begin with the prefix: no
/// key after the run has it.
pub proof fn lemma_scan_is_exact(keys: Seq<Seq<u8>>, prefix: Seq<u8>)
    requires
        ascending(keys),
        forall|i: int| 0 <= i < keys.len() ==> lex_le(prefix, #[trigger] keys[i]),
    ensures
        ascending(leading_run(keys, prefix)),
        forall|k: Seq<u8>|
            #![trigger leading_run(keys, prefix).contains(k)]
            leading_run(keys, prefix).contains(k) <==> keys.contains(k) && prefix.is_prefix_of(k),
{
    let n = run_len(keys, prefix) as int;
    let run = leading_run(keys, prefix);
    lemma_run_len(keys, prefix, n);
    assert forall|k: Seq<u8>| run.contains(k) <==> keys.contains(k) && prefix.is_prefix_of(
        k,
    ) by {
        if run.contains(k) {
            let i = choose|i: int| 0 <= i < run.len() && run[i] == k;
            assert(keys[i] == k);
        }
        if keys.contains(k) && prefix.is_prefix_of(k) {
            let i = choose|i: int| 0 <= i < keys.len() && keys[i] == k;
            if i >= n {
                assert(lex_le(keys[n], keys[i])) by {
                    if n == i {
                        lemma_lex_le_reflexive(keys[n]);
                    }
                }
                lemma_between_has_prefix(prefix, keys[n], keys[i]);
            }
            assert(run[i] == k);
        }
    }
}

/// A scan for a prefix whose walk begins at a point that has the prefix,
/// or at the prefix itself, finds exactly the keys of the store that begin
/// with the prefix and do not come before that point, in ascending order.
pub proof fn lemma_scan_finds_prefixed_keys(
    store: Set<Seq<u8>>,
    prefix: Seq<u8>,
    start: Seq<u8>,
    keys: Seq<Seq<u8>>,
)
    requires
        prefix.is_prefix_of(start),
        walk_of(store, start, keys),
    ensures
        ascending(leading_run(keys, prefix)),
        forall|k: Seq<u8>|
            #![trigger leading_run(keys, prefix).contains(k)]
            leading_run(keys, prefix).contains(k) <==> store.contains(k) && lex_le(start, k)
                && prefix.is_prefix_of(k),
        start == prefix ==> forall|k: Seq<u8>|
            #![trigger leading_run(keys, prefix).contains(k)]
            leading_run(keys, prefix).contains(k) <==> store.contains(k) && prefix.is_prefix_of(k),
{
    lemma_prefix_is_le(prefix, start);
    assert forall|i: int| 0 <= i < keys.len() implies lex_le(prefix, #[trigger] keys[i]) by {
        assert(keys.contains(keys[i]));
        lemma_lex_le_transitive(prefix, start, keys[i]);
    }
    lemma_scan_is_exact(keys, prefix);
    if start == prefix {
        assert forall|k: Seq<u8>|
            leading_run(keys, prefix).contains(k) <==> store.contains(k) && prefix.is_prefix_of(
                k,
            ) by {
            if store.contains(k) && prefix.is_prefix_of(k) {
                lemma_prefix_is_le(prefix, k);
            }
        }
    }
}

/// Two ascending sequences that hold the same keys are one sequence.
pub proof fn lemma_ascending_is_unique(a: Seq<Seq<u8>>, b: Seq<Seq<u8>>)
    requires
        ascending(a),
        ascending(b),
        forall|k: Seq<u8>|
            #![trigger a.contains(k)]
            #![trigger b.contains(k)]
            a.contains(k) <==> b.contains(k),
    ensures
        a == b,
    decreases a.len(),
{
    if a.len() == 0 {
        if b.len() > 0 {
            assert(b.contains(b[0]));
        }
        assert(a =~= b);
    } else {
        assert(a.contains(a[0]));
        assert(b.contains(a[0]));
        assert(b.contains(b[0]));
        assert(a.contains(b[0]));
        let i = choose|i: int| 0 <= i < b.len() && b[i] == a[0];
        let j = choose|j: int| 0 <= j < a.len() && a[j] == b[0];
        lemma_lex_le_reflexive(a[0]);
        assert(lex_le(b[0], a[0])) by {
            if i > 0 {
                assert(lex_le(b[0], b[i]));
            }
        }
        assert(lex_le(a[0], b[0])) by {
            if j > 0 {
                assert(lex_le(a[0], a[j]));
            }
        }
        lemma_lex_le_antisymmetric(a[0], b[0]);
        let rest_a = a.drop_first();
        let rest_b = b.drop_first();
        assert forall|k: Seq<u8>| rest_a.contains(k) <==> rest_b.contains(k) by {
            if rest_a.contains(k) {
                let m = choose|m: int| 0 <= m < rest_a.len() && rest_a[m] == k;
                assert(a[m + 1] == k);
                assert(a.contains(k));
                let n = choose|n: int| 0 <= n < b.len() && b[n] == k;
                assert(a[0] != a[m + 1]);
                assert(rest_b[n - 1] == k);
            }
            if rest_b.contains(k) {
                let m = choose|m: int| 0 <= m < rest_b.len() && rest_b[m] == k;
                assert(b[m + 1] == k);
                assert(b.contains(k));
                let n = choose|n: int| 0 <= n < a.len() && a[n] == k;
                assert(b[0] != b[m + 1]);
                assert(rest_a[n - 1] == k);
            }
        }
        assert(ascending(rest_a)) by {
            assert forall|x: int, y: int| 0 <= x < y < rest_a.len() implies lex_le(
                #[trigger] rest_a[x],
                #[trigger] rest_a[y],
            ) && rest_a[x] != rest_a[y] by {
                assert(rest_a[x] == a[x + 1] && rest_a[y] == a[y + 1]);
            }
        }
        assert(ascending(rest_b)) by {
            assert forall|x: int, y: int| 0 <= x < y < rest_b.len() implies lex_le(
                #[trigger] rest_b[x],
                #[trigger] rest_b[y],
            ) && rest_b[x] != rest_b[y] by {
                assert(rest_b[x] == b[x + 1] && rest_b[y] == b[y + 1]);
            }
        }
        lemma_ascending_is_unique(rest_a, rest_b);
        assert(a =~= seq![a[0]] + rest_a);
        assert(b =~= seq![b[0]] + rest_b);
    }
}

} // verus!
