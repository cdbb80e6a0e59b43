//! What the backend promises with any store that keeps its keys sorted.
//!
//! The stores are not part of this library, so the statements here speak of
//! them through two notions. `stored` is the set of keys that a keyspace holds
//! once a sequence of writes has been applied to empty stores. A walk
//! (`walk_of`) is what such a keyspace hands out from a point on. With these,
//! the lookups are shown to find what was written, and the three topologies to
//! answer alike.

use crate::concept::{
    Attribute, HasEdge, Prefix, RelatesEdge, RelationSiblingEdge, Thing, Type,
};
use crate::relation::{
    lemma_shortcut_is_written, lemma_shortcut_leads_to_sibling, lemma_written_is_shortcut, shortcut,
    shortcut_put,
};
use crate::scan::{
    ascending, leading_run, lemma_ascending_is_unique, lemma_prefix_is_le, lemma_run_len,
    lemma_scan_finds_prefixed_keys, lex_le, walk_of,
};
use crate::storage::{
    attribute_puts, entity_puts, far_player, location_at, one_has, one_owner, one_sibling,
    owned_prefix, owners_prefix, ownership_puts, pairs_of, partition_count, partition_of,
    relates_puts, relation_puts, sibling_puts, siblings, siblings_prefix, store_count,
    puts_for_store, store_of, total, Mode, RecordKind,
};
use vstd::prelude::*;
use vstd::seq_lib::seq_to_set_is_finite;
use vstd::set_lib::{lemma_len_subset, lemma_set_disjoint_lens};

verus! {

/// Whether `key` is the key of a record of the kind `kind`.
pub open spec fn is_record(kind: RecordKind, key: Seq<u8>) -> bool {
    match kind {
        RecordKind::Thing => Thing::decoding(key) is Some,
        RecordKind::Attribute => Attribute::decoding(key) is Some,
        RecordKind::HasForward => HasEdge::forward_decoding(key) is Some,
        RecordKind::HasBackward => HasEdge::backward_decoding(key) is Some,
        RecordKind::RelatesForward => RelatesEdge::forward_decoding(key) is Some,
        RecordKind::RelatesBackward => RelatesEdge::backward_decoding(key) is Some,
        RecordKind::RelationSibling => RelationSiblingEdge::decoding(key) is Some,
    }
}

/// Every write of `writes` is the key of a record of its kind.
pub open spec fn records(writes: Seq<(RecordKind, Seq<u8>)>) -> bool {
    forall|i: int| 0 <= i < writes.len() ==> is_record((#[trigger] writes[i]).0, writes[i].1)
}

/// The keys that the keyspace at `partition` of `store` holds once `writes`
/// has been applied, in the topology `mode`, to stores that were empty.
pub open spec fn stored(
    mode: Mode,
    writes: Seq<(RecordKind, Seq<u8>)>,
    store: int,
    partition: int,
) -> Set<Seq<u8>> {
    Set::new(
        |key: Seq<u8>|
            exists|kind: RecordKind|
                #[trigger] writes.contains((kind, key)) && store_of(mode, kind) == store
                    && partition_of(mode, kind) == partition,
    )
}

/// The keys that the keyspace of the records of `kind` holds.
pub open spec fn keyspace(mode: Mode, writes: Seq<(RecordKind, Seq<u8>)>, kind: RecordKind) -> Set<
    Seq<u8>,
> {
    stored(mode, writes, store_of(mode, kind), partition_of(mode, kind))
}

/// `stored` is what the batches of a commit leave in stores that were
/// empty: a keyspace holds a key exactly when the batch of its store puts the
/// key for a kind that lives in its partition.
pub proof fn lemma_stored_is_committed(
    mode: Mode,
    writes: Seq<(RecordKind, Seq<u8>)>,
    store: int,
    partition: int,
    key: Seq<u8>,
)
    ensures
        stored(mode, writes, store, partition).contains(key) <==> exists|kind: RecordKind|
            #[trigger] puts_for_store(writes, mode, store).contains((kind, key)) && partition_of(
                mode,
                kind,
            ) == partition,
{
    let routed = |put: (RecordKind, Seq<u8>)| store_of(mode, put.0) == store;
    let batch = puts_for_store(writes, mode, store);
    if stored(mode, writes, store, partition).contains(key) {
        let kind = choose|kind: RecordKind|
            #[trigger] writes.contains((kind, key)) && store_of(mode, kind) == store
                && partition_of(mode, kind) == partition;
        let i = choose|i: int| 0 <= i < writes.len() && writes[i] == (kind, key);
        writes.lemma_filter_contains(routed, i);
        assert(batch.contains((kind, key)));
    }
    if exists|kind: RecordKind|
        #[trigger] batch.contains((kind, key)) && partition_of(mode, kind) == partition {
        let kind = choose|kind: RecordKind|
            #[trigger] batch.contains((kind, key)) && partition_of(mode, kind) == partition;
        writes.lemma_filter_contains_rev(routed, (kind, key));
        let j = choose|j: int| 0 <= j < batch.len() && batch[j] == (kind, key);
        writes.lemma_filter_pred(routed, j);
        assert(writes.contains((kind, key)));
    }
}

/// The first key of a walk, if it has one.
pub open spec fn first_of(keys: Seq<Seq<u8>>) -> Option<Seq<u8>> {
    if keys.len() > 0 {
        Some(keys[0])
    } else {
        None
    }
}

/// Where each kind has a keyspace of its own, the keyspace holds the keys
/// that were written for the kind. Where all kinds share one keyspace, it
/// holds every key that was written. Either way a keyspace holds the keys of
/// its kind.
pub proof fn lemma_keyspace(
    mode: Mode,
    writes: Seq<(RecordKind, Seq<u8>)>,
    kind: RecordKind,
    key: Seq<u8>,
)
    ensures
        writes.contains((kind, key)) ==> keyspace(mode, writes, kind).contains(key),
        mode != Mode::SingleColumnFamily ==> (keyspace(mode, writes, kind).contains(key)
            <==> writes.contains((kind, key))),
        mode == Mode::SingleColumnFamily ==> (keyspace(mode, writes, kind).contains(key)
            <==> exists|other: RecordKind| #[trigger] writes.contains((other, key))),
{
}

/// The keys that the mutations write are keys of records of their kinds.
pub proof fn lemma_entity_puts_are_records(entity: Thing)
    ensures
        records(entity_puts(entity)),
{
    entity.lemma_decoding_of_encoding();
}

/// The key that says that an attribute exists is the key of an attribute.
pub proof fn lemma_attribute_puts_are_records(attribute: Attribute)
    ensures
        records(attribute_puts(attribute)),
{
    attribute.lemma_decoding_of_encoding();
}

/// The two keys of an ownership are keys of ownership records.
pub proof fn lemma_ownership_puts_are_records(owner: Thing, attribute: Attribute)
    ensures
        records(ownership_puts(owner, attribute)),
{
    HasEdge { owner, attr: attribute }.lemma_decoding_of_encoding();
}

/// Every key that a relation writes is the key of a record of its kind.
pub proof fn lemma_relation_puts_are_records(rel: Thing, players: Seq<(Type, Thing)>)
    ensures
        records(relation_puts(rel, players)),
{
    let puts = relation_puts(rel, players);
    let relates = relates_puts(rel, players);
    let shortcuts = sibling_puts(rel, pairs_of(players));
    rel.lemma_decoding_of_encoding();
    assert forall|i: int| 0 <= i < puts.len() implies is_record((#[trigger] puts[i]).0, puts[i].1) by {
        if 1 <= i < 1 + relates.len() {
            let k = i - 1;
            assert(puts[i] == relates[k]);
            let edge = RelatesEdge { rel, role_type: players[k / 2].0, player: players[k / 2].1 };
            edge.lemma_decoding_of_encoding();
        } else if i >= 1 + relates.len() {
            let k = i - 1 - relates.len();
            assert(puts[i] == shortcuts[k]);
            lemma_written_is_shortcut(rel, players, k);
            let (a, b) = crate::relation::ends_of_put(players.len() as int, k);
            shortcut(rel, players[a], players[b]).lemma_decoding_of_encoding();
        }
    }
}

/// Writes that are records stay records when they are put one after the
/// other.
pub proof fn lemma_records_add(a: Seq<(RecordKind, Seq<u8>)>, b: Seq<(RecordKind, Seq<u8>)>)
    requires
        records(a),
        records(b),
    ensures
        records(a + b),
{
    let both = a + b;
    assert forall|i: int| 0 <= i < both.len() implies is_record((#[trigger] both[i]).0, both[i].1) by {
        if i < a.len() {
            assert(both[i] == a[i]);
        } else {
            assert(both[i] == b[i - a.len()]);
        }
    }
}

/// The attribute that a record names first in its key: the attribute of a
/// record that says that an attribute exists, and of the backward record of an
/// ownership.
pub open spec fn leading_attribute(kind: RecordKind, key: Seq<u8>) -> Option<Attribute> {
    match kind {
        RecordKind::Attribute => Attribute::decoding(key),
        RecordKind::HasBackward => match HasEdge::backward_decoding(key) {
            Some(edge) => Some(edge.attr),
            None => None,
        },
        _ => None,
    }
}

/// No attribute that `writes` names first in a key is typed in the category
/// of `owner`. Things and attributes are in different categories by
/// convention; nothing enforces it.
pub open spec fn attributes_apart(writes: Seq<(RecordKind, Seq<u8>)>, owner: Thing) -> bool {
    forall|i: int|
        0 <= i < writes.len() ==> (leading_attribute((#[trigger] writes[i]).0, writes[i].1) matches Some(
            attribute,
        ) ==> attribute.type_.prefix != owner.type_.prefix)
}

proof fn lemma_prefix_bytes(prefix: Seq<u8>, key: Seq<u8>, i: int)
    requires
        prefix.is_prefix_of(key),
        0 <= i < prefix.len(),
    ensures
        key[i] == prefix[i],
        prefix.len() <= key.len(),
{
    assert(key.subrange(0, prefix.len() as int)[i] == key[i]);
}

/// The first byte of the key of a type, of a thing, or of an attribute is
/// the tag of a category.
proof fn lemma_type_starts_with_category(bytes: Seq<u8>)
    ensures
        Type::decoding(bytes) is Some ==> Prefix::of_byte(bytes[0]) is Some,
        Thing::decoding(bytes) is Some ==> Prefix::of_byte(bytes[0]) is Some,
        Attribute::decoding(bytes) is Some ==> Prefix::of_byte(bytes[0]) is Some,
{
    if Thing::decoding(bytes) is Some {
        assert(bytes.subrange(0, 3)[0] == bytes[0]);
    }
    if Attribute::decoding(bytes) is Some {
        assert(bytes.subrange(0, 4)[0] == bytes[0]);
    }
}

/// A key of a record that begins with the prefix of the owners of
/// `attribute` is the backward key of an ownership of `attribute`: the tag
/// after the attribute tells it from the keys of every other kind.
pub proof fn lemma_owners_prefix_marks_kind(kind: RecordKind, key: Seq<u8>, attribute: Attribute)
    requires
        is_record(kind, key),
        owners_prefix(attribute).is_prefix_of(key),
    ensures
        kind == RecordKind::HasBackward,
        HasEdge::backward_decoding(key) matches Some(edge) && edge.attr == attribute,
{
    let prefix = owners_prefix(attribute);
    attribute.lemma_encoding_len();
    attribute.lemma_decoding_of_encoding();
    lemma_prefix_bytes(prefix, key, 12);
    assert(key[12] == 0x55);
    match kind {
        RecordKind::Thing => {},
        RecordKind::Attribute => {},
        RecordKind::HasForward => {
            lemma_type_starts_with_category(key.subrange(12, 24));
            assert(key.subrange(12, 24)[0] == key[12]);
        },
        RecordKind::HasBackward => {
            assert(key.subrange(0, 12) =~= attribute.encoding()) by {
                assert forall|i: int| 0 <= i < 12 implies key.subrange(0, 12)[i]
                    == attribute.encoding()[i] by {
                    lemma_prefix_bytes(prefix, key, i);
                }
            }
        },
        RecordKind::RelatesForward | RecordKind::RelatesBackward => {
            lemma_type_starts_with_category(key.subrange(12, 15));
            assert(key.subrange(12, 15)[0] == key[12]);
        },
        RecordKind::RelationSibling => {
            lemma_type_starts_with_category(key.subrange(12, 15));
            assert(key.subrange(12, 15)[0] == key[12]);
        },
    }
}

/// A key of a record that begins with the prefix of the attributes of
/// `owner` is the forward key of an ownership by `owner`, unless it is a key
/// that begins with an attribute typed in the category of `owner`.
pub proof fn lemma_owned_prefix_marks_kind(kind: RecordKind, key: Seq<u8>, owner: Thing)
    requires
        is_record(kind, key),
        owned_prefix(owner).is_prefix_of(key),
        leading_attribute(kind, key) matches Some(attribute) ==> attribute.type_.prefix
            != owner.type_.prefix,
    ensures
        kind == RecordKind::HasForward,
        HasEdge::forward_decoding(key) matches Some(edge) && edge.owner == owner,
{
    let prefix = owned_prefix(owner);
    owner.lemma_encoding_len();
    owner.type_.lemma_encoding_len();
    owner.lemma_decoding_of_encoding();
    lemma_prefix_bytes(prefix, key, 11);
    lemma_prefix_bytes(prefix, key, 0);
    assert(key[11] == 0x55);
    assert(key[0] == owner.type_.prefix.byte());
    match kind {
        RecordKind::Thing => {},
        RecordKind::Attribute => {
            let attribute = Attribute::decoding(key).unwrap();
            assert(key.subrange(0, 4)[0] == key[0]);
            attribute.type_.prefix.lemma_byte_roundtrip();
            owner.type_.prefix.lemma_byte_roundtrip();
        },
        RecordKind::HasForward => {
            assert(key.subrange(0, 11) =~= owner.encoding()) by {
                assert forall|i: int| 0 <= i < 11 implies key.subrange(0, 11)[i]
                    == owner.encoding()[i] by {
                    lemma_prefix_bytes(prefix, key, i);
                }
            }
        },
        RecordKind::HasBackward => {
            let edge = HasEdge::backward_decoding(key).unwrap();
            assert(key.subrange(0, 12).subrange(0, 4)[0] == key[0]);
            edge.attr.type_.prefix.lemma_byte_roundtrip();
            owner.type_.prefix.lemma_byte_roundtrip();
        },
        RecordKind::RelatesForward | RecordKind::RelatesBackward => {},
        RecordKind::RelationSibling => {},
    }
}

/// A key of a record that begins with the prefix of the siblings of
/// `start` is the key of a shortcut that leads from `start`, in the role and
/// through a relation of the type that the prefix names.
pub proof fn lemma_siblings_prefix_marks_kind(
    kind: RecordKind,
    key: Seq<u8>,
    start: Thing,
    role_type: Type,
    relation_type: Type,
)
    requires
        is_record(kind, key),
        siblings_prefix(start, role_type, relation_type).is_prefix_of(key),
    ensures
        kind == RecordKind::RelationSibling,
        RelationSiblingEdge::decoding(key) matches Some(edge) && edge.lhs_player == start
            && edge.lhs_role_type == role_type && edge.rel.type_ == relation_type,
{
    let prefix = siblings_prefix(start, role_type, relation_type);
    start.lemma_encoding_len();
    role_type.lemma_encoding_len();
    relation_type.lemma_encoding_len();
    start.lemma_decoding_of_encoding();
    role_type.lemma_decoding_of_encoding();
    relation_type.lemma_decoding_of_encoding();
    lemma_prefix_bytes(prefix, key, 11);
    lemma_prefix_bytes(prefix, key, 12);
    assert(key[11] == 0x5A);
    assert(key[12] == role_type.prefix.byte());
    match kind {
        RecordKind::Thing => {},
        RecordKind::Attribute => {},
        RecordKind::HasForward => {},
        RecordKind::HasBackward => {},
        RecordKind::RelatesForward | RecordKind::RelatesBackward => {},
        RecordKind::RelationSibling => {
            assert(key.subrange(0, 11) =~= start.encoding()) by {
                assert forall|i: int| 0 <= i < 11 implies key.subrange(0, 11)[i]
                    == start.encoding()[i] by {
                    lemma_prefix_bytes(prefix, key, i);
                }
            }
            assert(key.subrange(12, 15) =~= role_type.encoding()) by {
                assert forall|i: int| 0 <= i < 3 implies key.subrange(12, 15)[i]
                    == role_type.encoding()[i] by {
                    lemma_prefix_bytes(prefix, key, i + 12);
                }
            }
            assert(key.subrange(15, 26).subrange(0, 3) =~= relation_type.encoding()) by {
                assert forall|i: int| 0 <= i < 3 implies key.subrange(15, 26).subrange(0, 3)[i]
                    == relation_type.encoding()[i] by {
                    lemma_prefix_bytes(prefix, key, i + 15);
                }
            }
        },
    }
}

/// A scan takes a key from a walk exactly when the first key of the walk
/// begins with the prefix; the first key that it takes is then the first key
/// of the walk.
pub proof fn lemma_first_of_run(keys: Seq<Seq<u8>>, prefix: Seq<u8>)
    ensures
        first_of(leading_run(keys, prefix)) == match first_of(keys) {
            Some(key) => if prefix.is_prefix_of(key) {
                Some(key)
            } else {
                None
            },
            None => None,
        },
{
    lemma_run_len(keys, prefix, 0);
}

/// The keys of the records of `kind` that begin with `prefix` are told from
/// the keys of every other kind by that prefix: no key that was written for
/// another kind begins with it.
pub open spec fn marked(writes: Seq<(RecordKind, Seq<u8>)>, kind: RecordKind, prefix: Seq<u8>) -> bool {
    forall|other: RecordKind, key: Seq<u8>|
        #[trigger] writes.contains((other, key)) && prefix.is_prefix_of(key) ==> other == kind
}

/// What a scan takes is the same in every topology, as long as the prefix
/// tells the keys of its kind from the others: the keys that were written for
/// the kind, begin with the prefix and do not come before the start of the
/// walk, in ascending order.
pub proof fn lemma_run_in_any_topology(
    writes: Seq<(RecordKind, Seq<u8>)>,
    kind: RecordKind,
    prefix: Seq<u8>,
    start: Seq<u8>,
    mode: Mode,
    keys: Seq<Seq<u8>>,
)
    requires
        marked(writes, kind, prefix),
        prefix.is_prefix_of(start),
        walk_of(keyspace(mode, writes, kind), start, keys),
    ensures
        ascending(leading_run(keys, prefix)),
        forall|key: Seq<u8>|
            #![trigger leading_run(keys, prefix).contains(key)]
            leading_run(keys, prefix).contains(key) <==> writes.contains((kind, key)) && lex_le(
                start,
                key,
            ) && prefix.is_prefix_of(key),
{
    lemma_scan_finds_prefixed_keys(keyspace(mode, writes, kind), prefix, start, keys);
    assert forall|key: Seq<u8>|
        leading_run(keys, prefix).contains(key) <==> writes.contains((kind, key)) && lex_le(
            start,
            key,
        ) && prefix.is_prefix_of(key) by {
        lemma_keyspace(mode, writes, kind, key);
    }
}

/// Two topologies give a scan the same keys.
pub proof fn lemma_runs_agree(
    writes: Seq<(RecordKind, Seq<u8>)>,
    kind: RecordKind,
    prefix: Seq<u8>,
    start: Seq<u8>,
    one: Mode,
    other: Mode,
    keys_of_one: Seq<Seq<u8>>,
    keys_of_other: Seq<Seq<u8>>,
)
    requires
        marked(writes, kind, prefix),
        prefix.is_prefix_of(start),
        walk_of(keyspace(one, writes, kind), start, keys_of_one),
        walk_of(keyspace(other, writes, kind), start, keys_of_other),
    ensures
        leading_run(keys_of_one, prefix) == leading_run(keys_of_other, prefix),
{
    lemma_run_in_any_topology(writes, kind, prefix, start, one, keys_of_one);
    lemma_run_in_any_topology(writes, kind, prefix, start, other, keys_of_other);
    let run_of_one = leading_run(keys_of_one, prefix);
    let run_of_other = leading_run(keys_of_other, prefix);
    assert forall|key: Seq<u8>| run_of_one.contains(key) <==> run_of_other.contains(key) by {
        let written = writes.contains((kind, key)) && lex_le(start, key) && prefix.is_prefix_of(
            key,
        );
        assert(run_of_one.contains(key) <==> written);
        assert(run_of_other.contains(key) <==> written);
    }
    lemma_ascending_is_unique(
        leading_run(keys_of_one, prefix),
        leading_run(keys_of_other, prefix),
    );
}

/// The prefix of the owners of an attribute marks the backward keys of
/// ownerships among all keys that are written.
pub proof fn lemma_owners_prefix_marks(writes: Seq<(RecordKind, Seq<u8>)>, attribute: Attribute)
    requires
        records(writes),
    ensures
        marked(writes, RecordKind::HasBackward, owners_prefix(attribute)),
{
    assert forall|other: RecordKind, key: Seq<u8>|
        #[trigger] writes.contains((other, key)) && owners_prefix(attribute).is_prefix_of(
            key,
        ) implies other == RecordKind::HasBackward by {
        let i = choose|i: int| 0 <= i < writes.len() && writes[i] == (other, key);
        assert(is_record(writes[i].0, writes[i].1));
        lemma_owners_prefix_marks_kind(other, key, attribute);
    }
}

/// The prefix of the attributes of an owner marks the forward keys of
/// ownerships, where the attributes that are written are typed apart from the
/// owner.
pub proof fn lemma_owned_prefix_marks(writes: Seq<(RecordKind, Seq<u8>)>, owner: Thing)
    requires
        records(writes),
        attributes_apart(writes, owner),
    ensures
        marked(writes, RecordKind::HasForward, owned_prefix(owner)),
{
    assert forall|other: RecordKind, key: Seq<u8>|
        #[trigger] writes.contains((other, key)) && owned_prefix(owner).is_prefix_of(
            key,
        ) implies other == RecordKind::HasForward by {
        let i = choose|i: int| 0 <= i < writes.len() && writes[i] == (other, key);
        assert(is_record(writes[i].0, writes[i].1));
        lemma_owned_prefix_marks_kind(other, key, owner);
    }
}

/// The prefix of the siblings of a player marks the keys of shortcuts.
pub proof fn lemma_siblings_prefix_marks(
    writes: Seq<(RecordKind, Seq<u8>)>,
    start: Thing,
    role_type: Type,
    relation_type: Type,
)
    requires
        records(writes),
    ensures
        marked(
            writes,
            RecordKind::RelationSibling,
            siblings_prefix(start, role_type, relation_type),
        ),
{
    let prefix = siblings_prefix(start, role_type, relation_type);
    assert forall|other: RecordKind, key: Seq<u8>|
        #[trigger] writes.contains((other, key)) && prefix.is_prefix_of(key) implies other
        == RecordKind::RelationSibling by {
        let i = choose|i: int| 0 <= i < writes.len() && writes[i] == (other, key);
        assert(is_record(writes[i].0, writes[i].1));
        lemma_siblings_prefix_marks_kind(other, key, start, role_type, relation_type);
    }
}

/// The lookup of an owner answers from the first key that the scan takes.
pub proof fn lemma_one_owner_of_run(attribute: Attribute, keys: Seq<Seq<u8>>)
    ensures
        one_owner(attribute, first_of(keys)) == one_owner(
            attribute,
            first_of(leading_run(keys, owners_prefix(attribute))),
        ),
{
    lemma_first_of_run(keys, owners_prefix(attribute));
}

/// The lookup of an attribute answers from the first key that the scan
/// takes.
pub proof fn lemma_one_has_of_run(owner: Thing, keys: Seq<Seq<u8>>)
    ensures
        one_has(owner, first_of(keys)) == one_has(
            owner,
            first_of(leading_run(keys, owned_prefix(owner))),
        ),
{
    lemma_first_of_run(keys, owned_prefix(owner));
}

/// The lookup of one sibling answers from the first key that the scan
/// takes.
pub proof fn lemma_one_sibling_of_run(
    start: Thing,
    role_type: Type,
    relation_type: Type,
    keys: Seq<Seq<u8>>,
)
    ensures
        one_sibling(start, role_type, relation_type, first_of(keys)) == one_sibling(
            start,
            role_type,
            relation_type,
            first_of(leading_run(keys, siblings_prefix(start, role_type, relation_type))),
        ),
{
    lemma_first_of_run(keys, siblings_prefix(start, role_type, relation_type));
}

/// Every topology gives the same owner of an attribute, or none: the
/// lookup answers alike from the walks of two topologies that hold the same
/// writes.
pub proof fn lemma_topologies_agree_on_owner(
    writes: Seq<(RecordKind, Seq<u8>)>,
    attribute: Attribute,
    one: Mode,
    other: Mode,
    keys_of_one: Seq<Seq<u8>>,
    keys_of_other: Seq<Seq<u8>>,
)
    requires
        records(writes),
        walk_of(
            keyspace(one, writes, RecordKind::HasBackward),
            owners_prefix(attribute),
            keys_of_one,
        ),
        walk_of(
            keyspace(other, writes, RecordKind::HasBackward),
            owners_prefix(attribute),
            keys_of_other,
        ),
    ensures
        one_owner(attribute, first_of(keys_of_one)) == one_owner(
            attribute,
            first_of(keys_of_other),
        ),
{
    let prefix = owners_prefix(attribute);
    lemma_owners_prefix_marks(writes, attribute);
    lemma_runs_agree(
        writes,
        RecordKind::HasBackward,
        prefix,
        prefix,
        one,
        other,
        keys_of_one,
        keys_of_other,
    );
    lemma_one_owner_of_run(attribute, keys_of_one);
    lemma_one_owner_of_run(attribute, keys_of_other);
}

/// Every topology gives the same attribute of an owner, or none, where the
/// attributes are typed apart from the owner. Without that a key that begins
/// with an attribute can stand, in the keyspace that all kinds share, where the
/// scan looks for the keys of the owner.
pub proof fn lemma_topologies_agree_on_has(
    writes: Seq<(RecordKind, Seq<u8>)>,
    owner: Thing,
    one: Mode,
    other: Mode,
    keys_of_one: Seq<Seq<u8>>,
    keys_of_other: Seq<Seq<u8>>,
)
    requires
        records(writes),
        attributes_apart(writes, owner),
        walk_of(keyspace(one, writes, RecordKind::HasForward), owned_prefix(owner), keys_of_one),
        walk_of(
            keyspace(other, writes, RecordKind::HasForward),
            owned_prefix(owner),
            keys_of_other,
        ),
    ensures
        one_has(owner, first_of(keys_of_one)) == one_has(owner, first_of(keys_of_other)),
{
    let prefix = owned_prefix(owner);
    lemma_owned_prefix_marks(writes, owner);
    lemma_runs_agree(
        writes,
        RecordKind::HasForward,
        prefix,
        prefix,
        one,
        other,
        keys_of_one,
        keys_of_other,
    );
    lemma_one_has_of_run(owner, keys_of_one);
    lemma_one_has_of_run(owner, keys_of_other);
}

/// Every topology gives the same siblings of a player, in the same order.
pub proof fn lemma_topologies_agree_on_siblings(
    writes: Seq<(RecordKind, Seq<u8>)>,
    start: Thing,
    role_type: Type,
    relation_type: Type,
    one: Mode,
    other: Mode,
    keys_of_one: Seq<Seq<u8>>,
    keys_of_other: Seq<Seq<u8>>,
)
    requires
        records(writes),
        walk_of(
            keyspace(one, writes, RecordKind::RelationSibling),
            siblings_prefix(start, role_type, relation_type),
            keys_of_one,
        ),
        walk_of(
            keyspace(other, writes, RecordKind::RelationSibling),
            siblings_prefix(start, role_type, relation_type),
            keys_of_other,
        ),
    ensures
        siblings(start, role_type, relation_type, keys_of_one) == siblings(
            start,
            role_type,
            relation_type,
            keys_of_other,
        ),
{
    let prefix = siblings_prefix(start, role_type, relation_type);
    lemma_siblings_prefix_marks(writes, start, role_type, relation_type);
    lemma_runs_agree(
        writes,
        RecordKind::RelationSibling,
        prefix,
        prefix,
        one,
        other,
        keys_of_one,
        keys_of_other,
    );
}

/// Every topology gives the same sibling, or none, to a lookup that begins
/// its walk at the same point among the shortcuts of a player.
pub proof fn lemma_topologies_agree_on_one_sibling(
    writes: Seq<(RecordKind, Seq<u8>)>,
    start: Thing,
    role_type: Type,
    relation_type: Type,
    seek: Seq<u8>,
    one: Mode,
    other: Mode,
    keys_of_one: Seq<Seq<u8>>,
    keys_of_other: Seq<Seq<u8>>,
)
    requires
        records(writes),
        siblings_prefix(start, role_type, relation_type).is_prefix_of(seek),
        walk_of(keyspace(one, writes, RecordKind::RelationSibling), seek, keys_of_one),
        walk_of(keyspace(other, writes, RecordKind::RelationSibling), seek, keys_of_other),
    ensures
        one_sibling(start, role_type, relation_type, first_of(keys_of_one)) == one_sibling(
            start,
            role_type,
            relation_type,
            first_of(keys_of_other),
        ),
{
    let prefix = siblings_prefix(start, role_type, relation_type);
    lemma_siblings_prefix_marks(writes, start, role_type, relation_type);
    lemma_runs_agree(
        writes,
        RecordKind::RelationSibling,
        prefix,
        seek,
        one,
        other,
        keys_of_one,
        keys_of_other,
    );
    lemma_one_sibling_of_run(start, role_type, relation_type, keys_of_one);
    lemma_one_sibling_of_run(start, role_type, relation_type, keys_of_other);
}

/// The backward key of the ownership of `attribute` by `owner`, as it is
/// written.
pub open spec fn owner_put(owner: Thing, attribute: Attribute) -> (RecordKind, Seq<u8>) {
    (RecordKind::HasBackward, HasEdge { owner, attr: attribute }.backward_encoding())
}

/// The forward key of the ownership of `attribute` by `owner`, as it is
/// written.
pub open spec fn has_put(owner: Thing, attribute: Attribute) -> (RecordKind, Seq<u8>) {
    (RecordKind::HasForward, HasEdge { owner, attr: attribute }.forward_encoding())
}

/// In every topology the lookup of an owner finds an owner that was written
/// for the attribute, and nothing only if none was written.
pub proof fn lemma_owner_is_found(
    mode: Mode,
    writes: Seq<(RecordKind, Seq<u8>)>,
    attribute: Attribute,
    keys: Seq<Seq<u8>>,
)
    requires
        records(writes),
        walk_of(keyspace(mode, writes, RecordKind::HasBackward), owners_prefix(attribute), keys),
    ensures
        match one_owner(attribute, first_of(keys)) {
            Some(owner) => writes.contains(owner_put(owner, attribute)),
            None => forall|owner: Thing| !writes.contains(#[trigger] owner_put(owner, attribute)),
        },
{
    let prefix = owners_prefix(attribute);
    let run = leading_run(keys, prefix);
    lemma_owners_prefix_marks(writes, attribute);
    lemma_run_in_any_topology(writes, RecordKind::HasBackward, prefix, prefix, mode, keys);
    lemma_one_owner_of_run(attribute, keys);
    if run.len() > 0 {
        let key = run[0];
        assert(run.contains(key));
        let i = choose|i: int| 0 <= i < writes.len() && writes[i] == (RecordKind::HasBackward, key);
        assert(is_record(writes[i].0, writes[i].1));
        lemma_owners_prefix_marks_kind(RecordKind::HasBackward, key, attribute);
        HasEdge::lemma_encoding_of_decoding(key);
    } else {
        assert forall|owner: Thing| !writes.contains(#[trigger] owner_put(owner, attribute)) by {
            let key = owner_put(owner, attribute).1;
            if writes.contains(owner_put(owner, attribute)) {
                attribute.lemma_encoding_len();
                assert(prefix =~= key.subrange(0, prefix.len() as int));
                lemma_prefix_is_le(prefix, key);
                assert(run.contains(key));
            }
        }
    }
}

/// Where one thing only was written as the owner of an attribute, the
/// lookup finds it.
pub proof fn lemma_sole_owner_is_found(
    mode: Mode,
    writes: Seq<(RecordKind, Seq<u8>)>,
    owner: Thing,
    attribute: Attribute,
    keys: Seq<Seq<u8>>,
)
    requires
        records(writes),
        writes.contains(owner_put(owner, attribute)),
        forall|other: Thing| writes.contains(#[trigger] owner_put(other, attribute)) ==> other == owner,
        walk_of(keyspace(mode, writes, RecordKind::HasBackward), owners_prefix(attribute), keys),
    ensures
        one_owner(attribute, first_of(keys)) == Some(owner),
{
    lemma_owner_is_found(mode, writes, attribute, keys);
}

/// In every topology the lookup of an attribute finds an attribute that
/// was written for the owner, and nothing only if none was written, where the
/// attributes are typed apart from the owner.
pub proof fn lemma_attribute_is_found(
    mode: Mode,
    writes: Seq<(RecordKind, Seq<u8>)>,
    owner: Thing,
    keys: Seq<Seq<u8>>,
)
    requires
        records(writes),
        attributes_apart(writes, owner),
        walk_of(keyspace(mode, writes, RecordKind::HasForward), owned_prefix(owner), keys),
    ensures
        match one_has(owner, first_of(keys)) {
            Some(attribute) => writes.contains(has_put(owner, attribute)),
            None => forall|attribute: Attribute|
                !writes.contains(#[trigger] has_put(owner, attribute)),
        },
{
    let prefix = owned_prefix(owner);
    let run = leading_run(keys, prefix);
    lemma_owned_prefix_marks(writes, owner);
    lemma_run_in_any_topology(writes, RecordKind::HasForward, prefix, prefix, mode, keys);
    lemma_one_has_of_run(owner, keys);
    if run.len() > 0 {
        let key = run[0];
        assert(run.contains(key));
        let i = choose|i: int| 0 <= i < writes.len() && writes[i] == (RecordKind::HasForward, key);
        assert(is_record(writes[i].0, writes[i].1));
        lemma_owned_prefix_marks_kind(RecordKind::HasForward, key, owner);
        HasEdge::lemma_encoding_of_decoding(key);
    } else {
        assert forall|attribute: Attribute|
            !writes.contains(#[trigger] has_put(owner, attribute)) by {
            let key = has_put(owner, attribute).1;
            if writes.contains(has_put(owner, attribute)) {
                owner.lemma_encoding_len();
                assert(prefix =~= key.subrange(0, prefix.len() as int));
                lemma_prefix_is_le(prefix, key);
                assert(run.contains(key));
            }
        }
    }
}

/// What `filter_map` keeps: the image of every item that has one.
pub proof fn lemma_filter_map_keeps<A, B>(items: Seq<A>, f: spec_fn(A) -> Option<B>, i: int)
    requires
        0 <= i < items.len(),
        f(items[i]) is Some,
    ensures
        items.filter_map(f).contains(f(items[i]).unwrap()),
    decreases items.len(),
{
    let rest = items.drop_last();
    let kept = items.filter_map(f);
    if i == items.len() - 1 {
        assert(kept[kept.len() - 1] == f(items[i]).unwrap());
    } else {
        lemma_filter_map_keeps(rest, f, i);
        let j = choose|j: int|
            0 <= j < rest.filter_map(f).len() && rest.filter_map(f)[j] == f(items[i]).unwrap();
        assert(rest[i] == items[i]);
        assert(kept[j] == f(items[i]).unwrap());
    }
}

/// A shortcut that was written is found: the scan for the siblings of its
/// first player gives its second player, in every topology.
pub proof fn lemma_shortcut_is_found(
    mode: Mode,
    writes: Seq<(RecordKind, Seq<u8>)>,
    rel: Thing,
    from: (Type, Thing),
    to: (Type, Thing),
    keys: Seq<Seq<u8>>,
)
    requires
        records(writes),
        writes.contains(shortcut_put(rel, from, to)),
        walk_of(
            keyspace(mode, writes, RecordKind::RelationSibling),
            siblings_prefix(from.1, from.0, rel.type_),
            keys,
        ),
    ensures
        siblings(from.1, from.0, rel.type_, keys).contains(to.1),
{
    let prefix = siblings_prefix(from.1, from.0, rel.type_);
    let run = leading_run(keys, prefix);
    let key = shortcut(rel, from, to).forward_encoding();
    lemma_shortcut_leads_to_sibling(rel, from, to);
    lemma_siblings_prefix_marks(writes, from.1, from.0, rel.type_);
    lemma_run_in_any_topology(writes, RecordKind::RelationSibling, prefix, prefix, mode, keys);
    lemma_prefix_is_le(prefix, key);
    assert(run.contains(key));
    let i = choose|i: int| 0 <= i < run.len() && run[i] == key;
    lemma_filter_map_keeps(run, far_player(), i);
}

/// Every two different players of a relation that was written are siblings
/// that the scan finds: the scan from the one gives the other.
pub proof fn lemma_players_are_siblings(
    mode: Mode,
    writes: Seq<(RecordKind, Seq<u8>)>,
    rel: Thing,
    players: Seq<(Type, Thing)>,
    i: int,
    j: int,
    keys: Seq<Seq<u8>>,
)
    requires
        records(writes),
        forall|k: int|
            0 <= k < relation_puts(rel, players).len() ==> writes.contains(
                #[trigger] relation_puts(rel, players)[k],
            ),
        0 <= i < players.len(),
        0 <= j < players.len(),
        i != j,
        walk_of(
            keyspace(mode, writes, RecordKind::RelationSibling),
            siblings_prefix(players[i].1, players[i].0, rel.type_),
            keys,
        ),
    ensures
        siblings(players[i].1, players[i].0, rel.type_, keys).contains(players[j].1),
{
    let puts = relation_puts(rel, players);
    let shortcuts = sibling_puts(rel, pairs_of(players));
    lemma_shortcut_is_written(rel, players, i, j);
    let k = choose|k: int|
        0 <= k < shortcuts.len() && shortcuts[k] == shortcut_put(rel, players[i], players[j]);
    let at = 1 + relates_puts(rel, players).len() + k;
    assert(puts[at] == shortcuts[k]);
    lemma_shortcut_is_found(mode, writes, rel, players[i], players[j], keys);
}

/// A lookup of one sibling that begins its walk anywhere among the
/// shortcuts of a player gives one of the siblings that the full scan finds,
/// or nothing; it gives nothing where the full scan finds none.
pub proof fn lemma_one_sibling_is_a_sibling(
    store: Set<Seq<u8>>,
    start: Thing,
    role_type: Type,
    relation_type: Type,
    seek: Seq<u8>,
    keys: Seq<Seq<u8>>,
    all: Seq<Seq<u8>>,
)
    requires
        siblings_prefix(start, role_type, relation_type).is_prefix_of(seek),
        walk_of(store, seek, keys),
        walk_of(store, siblings_prefix(start, role_type, relation_type), all),
    ensures
        one_sibling(start, role_type, relation_type, first_of(keys)) matches Some(sibling)
            ==> siblings(start, role_type, relation_type, all).contains(sibling),
        siblings(start, role_type, relation_type, all).len() == 0 ==> one_sibling(
            start,
            role_type,
            relation_type,
            first_of(keys),
        ) is None,
{
    let prefix = siblings_prefix(start, role_type, relation_type);
    let run = leading_run(all, prefix);
    if let Some(sibling) = one_sibling(start, role_type, relation_type, first_of(keys)) {
        let key = keys[0];
        assert(keys.contains(key));
        lemma_scan_finds_prefixed_keys(store, prefix, prefix, all);
        assert(run.contains(key));
        let i = choose|i: int| 0 <= i < run.len() && run[i] == key;
        lemma_filter_map_keeps(run, far_player(), i);
        let found = siblings(start, role_type, relation_type, all);
        let j = choose|j: int| 0 <= j < found.len() && found[j] == sibling;
    }
}

/// The keys that were written for the records of `kind`.
pub open spec fn keys_of_kind(writes: Seq<(RecordKind, Seq<u8>)>, kind: RecordKind) -> Set<Seq<u8>> {
    Set::new(|key: Seq<u8>| writes.contains((kind, key)))
}

/// The sum of `counts`.
pub open spec fn sum(counts: Seq<nat>) -> nat
    decreases counts.len(),
{
    if counts.len() == 0 {
        0
    } else {
        sum(counts.drop_last()) + counts.last()
    }
}

/// How many keys each keyspace of the topology holds, keyspace by keyspace
/// in the order of `Storage::locations`.
pub open spec fn stored_counts(mode: Mode, writes: Seq<(RecordKind, Seq<u8>)>) -> Seq<nat> {
    Seq::new(
        (store_count(mode) * partition_count(mode)) as nat,
        |i: int| stored(mode, writes, location_at(mode, i).0, location_at(mode, i).1).len(),
    )
}

/// How many keys the backend holds: the counts of its keyspaces, added up.
pub open spec fn total_stored(mode: Mode, writes: Seq<(RecordKind, Seq<u8>)>) -> nat {
    sum(stored_counts(mode, writes))
}

/// No key is written both as the forward and as the backward key of a
/// role-player fact. The two layouts are alike, so the key of the fact that
/// one thing plays a role in another is also the backward key of the fact that
/// the other plays the same role in the one.
pub open spec fn relates_apart(writes: Seq<(RecordKind, Seq<u8>)>) -> bool {
    forall|key: Seq<u8>|
        !(#[trigger] writes.contains((RecordKind::RelatesForward, key)) && writes.contains(
            (RecordKind::RelatesBackward, key),
        ))
}

/// The count that is added up from the counts of the keyspaces, as
/// `Storage::total_key_count` does, is the count of the keys that the backend
/// holds.
pub proof fn lemma_total_of_counts(
    mode: Mode,
    writes: Seq<(RecordKind, Seq<u8>)>,
    counts: Seq<usize>,
)
    requires
        counts.len() == stored_counts(mode, writes).len(),
        forall|i: int| 0 <= i < counts.len() ==> #[trigger] counts[i] == stored_counts(mode, writes)[i],
    ensures
        total(counts) == total_stored(mode, writes),
{
    lemma_total_is_sum(counts, stored_counts(mode, writes));
}

proof fn lemma_total_is_sum(counts: Seq<usize>, numbers: Seq<nat>)
    requires
        counts.len() == numbers.len(),
        forall|i: int| 0 <= i < counts.len() ==> #[trigger] counts[i] == numbers[i],
    ensures
        total(counts) == sum(numbers),
    decreases counts.len(),
{
    if counts.len() > 0 {
        lemma_total_is_sum(counts.drop_last(), numbers.drop_last());
    }
}

proof fn lemma_sum_of_seven(counts: Seq<nat>)
    requires
        counts.len() == 7,
    ensures
        sum(counts) == counts[0] + counts[1] + counts[2] + counts[3] + counts[4] + counts[5]
            + counts[6],
{
    let six = counts.drop_last();
    let five = six.drop_last();
    let four = five.drop_last();
    let three = four.drop_last();
    let two = three.drop_last();
    let one = two.drop_last();
    assert(sum(one.drop_last()) == 0);
    assert(sum(one) == counts[0]);
    assert(sum(two) == sum(one) + counts[1]);
    assert(sum(three) == sum(two) + counts[2]);
    assert(sum(four) == sum(three) + counts[3]);
    assert(sum(five) == sum(four) + counts[4]);
    assert(sum(six) == sum(five) + counts[5]);
}

/// A key is the key of a record of one kind only, but for the two kinds of
/// keys of a role-player fact, which are laid out alike.
pub proof fn lemma_kinds_apart(one: RecordKind, other: RecordKind, key: Seq<u8>)
    requires
        is_record(one, key),
        is_record(other, key),
        one != other,
    ensures
        one == RecordKind::RelatesForward && other == RecordKind::RelatesBackward || one
            == RecordKind::RelatesBackward && other == RecordKind::RelatesForward,
{
    if key.len() == 24 {
        lemma_type_starts_with_category(key.subrange(12, 24));
        assert(key.subrange(12, 24)[0] == key[12]);
    }
}

/// The keys of a kind are finitely many.
proof fn lemma_keys_of_kind_finite(writes: Seq<(RecordKind, Seq<u8>)>, kind: RecordKind)
    ensures
        keys_of_kind(writes, kind).finite(),
{
    let keys = writes.map_values(|write: (RecordKind, Seq<u8>)| write.1);
    seq_to_set_is_finite(keys);
    assert(keys_of_kind(writes, kind).subset_of(keys.to_set())) by {
        assert forall|key: Seq<u8>| keys_of_kind(writes, kind).contains(key) implies keys.to_set().contains(
            key,
        ) by {
            let i = choose|i: int| 0 <= i < writes.len() && writes[i] == (kind, key);
            assert(keys[i] == key);
        }
    }
    lemma_len_subset(keys_of_kind(writes, kind), keys.to_set());
}

/// A topology that gives each kind its keyspace holds, in all, as many keys
/// as were written for each kind.
proof fn lemma_count_of_separate(mode: Mode, writes: Seq<(RecordKind, Seq<u8>)>)
    requires
        mode != Mode::SingleColumnFamily,
    ensures
        total_stored(mode, writes) == keys_of_kind(writes, RecordKind::Thing).len() + keys_of_kind(
            writes,
            RecordKind::Attribute,
        ).len() + keys_of_kind(writes, RecordKind::HasForward).len() + keys_of_kind(
            writes,
            RecordKind::HasBackward,
        ).len() + keys_of_kind(writes, RecordKind::RelatesForward).len() + keys_of_kind(
            writes,
            RecordKind::RelatesBackward,
        ).len() + keys_of_kind(writes, RecordKind::RelationSibling).len(),
{
    let counts = stored_counts(mode, writes);
    assert forall|i: int| 0 <= i < 7 implies #[trigger] counts[i] == keys_of_kind(
        writes,
        RecordKind::at(i),
    ).len() by {
        let held = stored(mode, writes, location_at(mode, i).0, location_at(mode, i).1);
        assert(held =~= keys_of_kind(writes, RecordKind::at(i))) by {
            assert forall|key: Seq<u8>| held.contains(key) <==> keys_of_kind(
                writes,
                RecordKind::at(i),
            ).contains(key) by {
                lemma_keyspace(mode, writes, RecordKind::at(i), key);
            }
        }
    }
    lemma_sum_of_seven(counts);
    assert(counts[0] == keys_of_kind(writes, RecordKind::at(0)).len());
    assert(counts[1] == keys_of_kind(writes, RecordKind::at(1)).len());
    assert(counts[2] == keys_of_kind(writes, RecordKind::at(2)).len());
    assert(counts[3] == keys_of_kind(writes, RecordKind::at(3)).len());
    assert(counts[4] == keys_of_kind(writes, RecordKind::at(4)).len());
    assert(counts[5] == keys_of_kind(writes, RecordKind::at(5)).len());
    assert(counts[6] == keys_of_kind(writes, RecordKind::at(6)).len());
}

/// Two kinds have no key in common.
proof fn lemma_keys_of_kinds_disjoint(
    writes: Seq<(RecordKind, Seq<u8>)>,
    one: RecordKind,
    other: RecordKind,
)
    requires
        records(writes),
        relates_apart(writes),
        one != other,
    ensures
        keys_of_kind(writes, one).disjoint(keys_of_kind(writes, other)),
{
    assert forall|key: Seq<u8>|
        !(keys_of_kind(writes, one).contains(key) && keys_of_kind(writes, other).contains(
            key,
        )) by {
        if writes.contains((one, key)) && writes.contains((other, key)) {
            let i = choose|i: int| 0 <= i < writes.len() && writes[i] == (one, key);
            let j = choose|j: int| 0 <= j < writes.len() && writes[j] == (other, key);
            assert(is_record(writes[i].0, writes[i].1));
            assert(is_record(writes[j].0, writes[j].1));
            lemma_kinds_apart(one, other, key);
        }
    }
}

/// The topology with one keyspace holds, in all, as many keys as were
/// written for each kind, where no key stands for two kinds.
proof fn lemma_count_of_shared(writes: Seq<(RecordKind, Seq<u8>)>)
    requires
        records(writes),
        relates_apart(writes),
    ensures
        total_stored(Mode::SingleColumnFamily, writes) == keys_of_kind(
            writes,
            RecordKind::Thing,
        ).len() + keys_of_kind(writes, RecordKind::Attribute).len() + keys_of_kind(
            writes,
            RecordKind::HasForward,
        ).len() + keys_of_kind(writes, RecordKind::HasBackward).len() + keys_of_kind(
            writes,
            RecordKind::RelatesForward,
        ).len() + keys_of_kind(writes, RecordKind::RelatesBackward).len() + keys_of_kind(
            writes,
            RecordKind::RelationSibling,
        ).len(),
{
    let mode = Mode::SingleColumnFamily;
    let shared = stored(mode, writes, 0, 0);
    let k0 = keys_of_kind(writes, RecordKind::Thing);
    let k1 = keys_of_kind(writes, RecordKind::Attribute);
    let k2 = keys_of_kind(writes, RecordKind::HasForward);
    let k3 = keys_of_kind(writes, RecordKind::HasBackward);
    let k4 = keys_of_kind(writes, RecordKind::RelatesForward);
    let k5 = keys_of_kind(writes, RecordKind::RelatesBackward);
    let k6 = keys_of_kind(writes, RecordKind::RelationSibling);
    lemma_keys_of_kind_finite(writes, RecordKind::Thing);
    lemma_keys_of_kind_finite(writes, RecordKind::Attribute);
    lemma_keys_of_kind_finite(writes, RecordKind::HasForward);
    lemma_keys_of_kind_finite(writes, RecordKind::HasBackward);
    lemma_keys_of_kind_finite(writes, RecordKind::RelatesForward);
    lemma_keys_of_kind_finite(writes, RecordKind::RelatesBackward);
    lemma_keys_of_kind_finite(writes, RecordKind::RelationSibling);
    lemma_keys_of_kinds_disjoint(writes, RecordKind::Thing, RecordKind::Attribute);
    lemma_keys_of_kinds_disjoint(writes, RecordKind::Thing, RecordKind::HasForward);
    lemma_keys_of_kinds_disjoint(writes, RecordKind::Thing, RecordKind::HasBackward);
    lemma_keys_of_kinds_disjoint(writes, RecordKind::Thing, RecordKind::RelatesForward);
    lemma_keys_of_kinds_disjoint(writes, RecordKind::Thing, RecordKind::RelatesBackward);
    lemma_keys_of_kinds_disjoint(writes, RecordKind::Thing, RecordKind::RelationSibling);
    lemma_keys_of_kinds_disjoint(writes, RecordKind::Attribute, RecordKind::HasForward);
    lemma_keys_of_kinds_disjoint(writes, RecordKind::Attribute, RecordKind::HasBackward);
    lemma_keys_of_kinds_disjoint(writes, RecordKind::Attribute, RecordKind::RelatesForward);
    lemma_keys_of_kinds_disjoint(writes, RecordKind::Attribute, RecordKind::RelatesBackward);
    lemma_keys_of_kinds_disjoint(writes, RecordKind::Attribute, RecordKind::RelationSibling);
    lemma_keys_of_kinds_disjoint(writes, RecordKind::HasForward, RecordKind::HasBackward);
    lemma_keys_of_kinds_disjoint(writes, RecordKind::HasForward, RecordKind::RelatesForward);
    lemma_keys_of_kinds_disjoint(writes, RecordKind::HasForward, RecordKind::RelatesBackward);
    lemma_keys_of_kinds_disjoint(writes, RecordKind::HasForward, RecordKind::RelationSibling);
    lemma_keys_of_kinds_disjoint(writes, RecordKind::HasBackward, RecordKind::RelatesForward);
    lemma_keys_of_kinds_disjoint(writes, RecordKind::HasBackward, RecordKind::RelatesBackward);
    lemma_keys_of_kinds_disjoint(writes, RecordKind::HasBackward, RecordKind::RelationSibling);
    lemma_keys_of_kinds_disjoint(writes, RecordKind::RelatesForward, RecordKind::RelatesBackward);
    lemma_keys_of_kinds_disjoint(writes, RecordKind::RelatesForward, RecordKind::RelationSibling);
    lemma_keys_of_kinds_disjoint(writes, RecordKind::RelatesBackward, RecordKind::RelationSibling);
    let u1 = k0 + k1;
    let u2 = u1 + k2;
    let u3 = u2 + k3;
    let u4 = u3 + k4;
    let u5 = u4 + k5;
    let u6 = u5 + k6;
    lemma_set_disjoint_lens(k0, k1);
    lemma_set_disjoint_lens(u1, k2);
    lemma_set_disjoint_lens(u2, k3);
    lemma_set_disjoint_lens(u3, k4);
    lemma_set_disjoint_lens(u4, k5);
    lemma_set_disjoint_lens(u5, k6);
    assert(shared =~= u6) by {
        assert forall|key: Seq<u8>| shared.contains(key) <==> u6.contains(key) by {
            if shared.contains(key) {
                let kind = choose|kind: RecordKind| #[trigger] writes.contains((kind, key));
                assert(keys_of_kind(writes, kind).contains(key));
            }
            if u6.contains(key) {
                lemma_keyspace(mode, writes, RecordKind::Thing, key);
            }
        }
    }
    let counts = stored_counts(mode, writes);
    assert(counts.len() == 1);
    assert(counts[0] == shared.len());
    assert(sum(counts.drop_last()) == 0);
}

/// Every topology holds the same count of keys after the same writes, where
/// no key is written both as the forward and as the backward key of a
/// role-player fact. Such a key is one key in a keyspace that all kinds share
/// and two keys where each kind has its own.
pub proof fn lemma_topologies_agree_on_count(
    writes: Seq<(RecordKind, Seq<u8>)>,
    one: Mode,
    other: Mode,
)
    requires
        records(writes),
        relates_apart(writes),
    ensures
        total_stored(one, writes) == total_stored(other, writes),
{
    if one == Mode::SingleColumnFamily {
        lemma_count_of_shared(writes);
    } else {
        lemma_count_of_separate(one, writes);
    }
    if other == Mode::SingleColumnFamily {
        lemma_count_of_shared(writes);
    } else {
        lemma_count_of_separate(other, writes);
    }
}

} // verus!
