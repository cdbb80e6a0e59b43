//! The storage backend without its engine: where each kind of record lives
//! in each topology, which keys a mutation writes, which keys a query seeks,
//! and what the keys that come back mean.
//!
//! The sorted store itself is outside this library. A caller that owns one
//! applies the batches that [`Storage::commit`] hands out, walks the store from
//! the point that a [`Scan`] names, and gives the keys of the walk to the
//! query that made the scan.

use crate::bytes::{
    append, be_bytes, lemma_be_bytes_len, same_bytes, starts_with, u64_to_be,
};
use crate::concept::{
    Attribute, EdgeType, HasEdge, RelatesEdge, RelationSiblingEdge, Thing, Type,
};
use crate::random::random_u64;
use crate::scan::{exact_prefix, key_seq, leading_run};
use itertools::Itertools;
use vstd::prelude::*;
use vstd::slice::slice_to_vec;

verus! {

/// The three ways to lay the seven kinds of records out over stores.
#[derive(Copy, Clone, Debug, PartialEq, Eq, Structural)]
pub enum Mode {
    /// One store with one keyspace that all kinds share.
    SingleColumnFamily,
    /// One store with one partition for each kind.
    MultipleColumnFamilies,
    /// One store for each kind.
    MultipleDatabases,
}

impl Mode {
    /// The topology that `name` names: `SINGLE`, `CF` or `DB`, in ASCII.
    pub open spec fn named(name: Seq<u8>) -> Option<Mode> {
        if name == seq![0x53u8, 0x49, 0x4e, 0x47, 0x4c, 0x45] {
            Some(Mode::SingleColumnFamily)
        } else if name == seq![0x43u8, 0x46] {
            Some(Mode::MultipleColumnFamilies)
        } else if name == seq![0x44u8, 0x42] {
            Some(Mode::MultipleDatabases)
        } else {
            None
        }
    }

    /// Reads the name of a topology: `SINGLE`, `CF` or `DB`. Nothing for any
    /// other name.
    pub fn from_name(name: &[u8]) -> (mode: Option<Mode>)
        ensures
            mode == Mode::named(name@),
    {
        let single: [u8; 6] = [0x53, 0x49, 0x4e, 0x47, 0x4c, 0x45];
        let partitioned: [u8; 2] = [0x43, 0x46];
        let separate: [u8; 2] = [0x44, 0x42];
        proof {
            assert(single@ =~= seq![0x53u8, 0x49, 0x4e, 0x47, 0x4c, 0x45]);
            assert(partitioned@ =~= seq![0x43u8, 0x46]);
            assert(separate@ =~= seq![0x44u8, 0x42]);
        }
        if same_bytes(name, &single) {
            Some(Mode::SingleColumnFamily)
        } else if same_bytes(name, &partitioned) {
            Some(Mode::MultipleColumnFamilies)
        } else if same_bytes(name, &separate) {
            Some(Mode::MultipleDatabases)
        } else {
            None
        }
    }
}

/// How many kinds of records there are.
pub const RECORD_KINDS: usize = 7;

/// The kinds of records that are written.
#[derive(Copy, Clone, Debug, PartialEq, Eq, Hash, Structural)]
pub enum RecordKind {
    Thing,
    Attribute,
    HasForward,
    HasBackward,
    RelatesForward,
    RelatesBackward,
    RelationSibling,
}

impl RecordKind {
    /// The place of this kind among the seven.
    pub open spec fn index(self) -> int {
        match self {
            RecordKind::Thing => 0,
            RecordKind::Attribute => 1,
            RecordKind::HasForward => 2,
            RecordKind::HasBackward => 3,
            RecordKind::RelatesForward => 4,
            RecordKind::RelatesBackward => 5,
            RecordKind::RelationSibling => 6,
        }
    }

    /// The kind at place `i`.
    pub open spec fn at(i: int) -> RecordKind {
        if i == 0 {
            RecordKind::Thing
        } else if i == 1 {
            RecordKind::Attribute
        } else if i == 2 {
            RecordKind::HasForward
        } else if i == 3 {
            RecordKind::HasBackward
        } else if i == 4 {
            RecordKind::RelatesForward
        } else if i == 5 {
            RecordKind::RelatesBackward
        } else {
            RecordKind::RelationSibling
        }
    }

    /// The name of the partition, or of the store, that holds this kind
    /// where it has one of its own.
    pub open spec fn name(self) -> Seq<char> {
        match self {
            RecordKind::Thing => "thing"@,
            RecordKind::Attribute => "attribute"@,
            RecordKind::HasForward => "has_forward"@,
            RecordKind::HasBackward => "has_backward"@,
            RecordKind::RelatesForward => "relates_forward"@,
            RecordKind::RelatesBackward => "relates_backward"@,
            RecordKind::RelationSibling => "relation_sibling"@,
        }
    }

    /// The place of this kind among the seven.
    pub fn to_index(self) -> (i: usize)
        ensures
            i == self.index(),
            i < RECORD_KINDS,
    {
        match self {
            RecordKind::Thing => 0,
            RecordKind::Attribute => 1,
            RecordKind::HasForward => 2,
            RecordKind::HasBackward => 3,
            RecordKind::RelatesForward => 4,
            RecordKind::RelatesBackward => 5,
            RecordKind::RelationSibling => 6,
        }
    }

    /// The seven kinds, each at its place.
    pub fn all() -> (kinds: [RecordKind; RECORD_KINDS])
        ensures
            forall|i: int| 0 <= i < RECORD_KINDS ==> #[trigger] kinds@[i] == RecordKind::at(i),
    {
        [
            RecordKind::Thing,
            RecordKind::Attribute,
            RecordKind::HasForward,
            RecordKind::HasBackward,
            RecordKind::RelatesForward,
            RecordKind::RelatesBackward,
            RecordKind::RelationSibling,
        ]
    }

    /// The name of the partition, or of the store, that holds this kind
    /// where it has one of its own.
    pub fn to_name(self) -> (name: &'static str)
        ensures
            name@ == self.name(),
    {
        match self {
            RecordKind::Thing => "thing",
            RecordKind::Attribute => "attribute",
            RecordKind::HasForward => "has_forward",
            RecordKind::HasBackward => "has_backward",
            RecordKind::RelatesForward => "relates_forward",
            RecordKind::RelatesBackward => "relates_backward",
            RecordKind::RelationSibling => "relation_sibling",
        }
    }
}

/// The store that holds records of `kind` in the topology `mode`.
pub open spec fn store_of(mode: Mode, kind: RecordKind) -> int {
    match mode {
        Mode::MultipleDatabases => kind.index(),
        _ => 0,
    }
}

/// The partition, within its store, that holds records of `kind`.
pub open spec fn partition_of(mode: Mode, kind: RecordKind) -> int {
    match mode {
        Mode::MultipleColumnFamilies => kind.index(),
        _ => 0,
    }
}

/// How many stores the topology `mode` has.
pub open spec fn store_count(mode: Mode) -> int {
    match mode {
        Mode::MultipleDatabases => RECORD_KINDS as int,
        _ => 1,
    }
}

/// How many partitions each store of the topology `mode` has.
pub open spec fn partition_count(mode: Mode) -> int {
    match mode {
        Mode::MultipleColumnFamilies => RECORD_KINDS as int,
        _ => 1,
    }
}

/// A keyspace: a partition of a store.
#[derive(Copy, Clone, Debug, PartialEq, Eq, Hash, Structural)]
pub struct Location {
    pub store: usize,
    pub partition: usize,
}

/// One key to write, with the kind of record that it is a key of. The value
/// that goes with it is always empty.
#[derive(Debug)]
pub struct Put {
    pub kind: RecordKind,
    pub key: Vec<u8>,
}

impl View for Put {
    type V = (RecordKind, Seq<u8>);

    open spec fn view(&self) -> (RecordKind, Seq<u8>) {
        (self.kind, self.key@)
    }
}

/// The kinds and keys of `puts`.
pub open spec fn put_seq(puts: Seq<Put>) -> Seq<(RecordKind, Seq<u8>)> {
    Seq::new(puts.len(), |i: int| puts[i]@)
}

/// The writes that go to one store, to be applied in one call.
#[derive(Debug)]
pub struct Batch {
    pub store: usize,
    pub puts: Vec<Put>,
}

/// The puts among `puts` that the topology `mode` sends to `store`, in
/// their order.
pub open spec fn puts_for_store(
    puts: Seq<(RecordKind, Seq<u8>)>,
    mode: Mode,
    store: int,
) -> Seq<(RecordKind, Seq<u8>)> {
    puts.filter(|put: (RecordKind, Seq<u8>)| store_of(mode, put.0) == store)
}

/// The key of the record that says that `entity` exists.
pub open spec fn entity_puts(entity: Thing) -> Seq<(RecordKind, Seq<u8>)> {
    seq![(RecordKind::Thing, entity.encoding())]
}

/// The key of the record that says that `attribute` exists.
pub open spec fn attribute_puts(attribute: Attribute) -> Seq<(RecordKind, Seq<u8>)> {
    seq![(RecordKind::Attribute, attribute.encoding())]
}

/// The two keys of one ownership fact: forward, then backward.
pub open spec fn ownership_puts(owner: Thing, attribute: Attribute) -> Seq<(RecordKind, Seq<u8>)> {
    let edge = HasEdge { owner, attr: attribute };
    seq![
        (RecordKind::HasForward, edge.forward_encoding()),
        (RecordKind::HasBackward, edge.backward_encoding()),
    ]
}

/// The two keys of each role-player fact of `rel`, player by player:
/// forward, then backward.
pub open spec fn relates_puts(rel: Thing, players: Seq<(Type, Thing)>) -> Seq<
    (RecordKind, Seq<u8>),
> {
    Seq::new(
        2 * players.len(),
        |k: int|
            {
                let edge = RelatesEdge { rel, role_type: players[k / 2].0, player: players[k / 2].1 };
                if k % 2 == 0 {
                    (RecordKind::RelatesForward, edge.forward_encoding())
                } else {
                    (RecordKind::RelatesBackward, edge.backward_encoding())
                }
            },
    )
}

/// The shortcut between the two players of `pair` through `rel`, seen from
/// the first of them.
pub open spec fn sibling_edge(rel: Thing, pair: ((Type, Thing), (Type, Thing))) -> RelationSiblingEdge {
    RelationSiblingEdge {
        lhs_player: pair.0.1,
        lhs_role_type: pair.0.0,
        rel,
        rhs_role_type: pair.1.0,
        rhs_player: pair.1.1,
    }
}

/// The two shortcut keys of each pair of players of `rel`, pair by pair:
/// from the first player to the second, then from the second to the first.
pub open spec fn sibling_puts(rel: Thing, pairs: Seq<((Type, Thing), (Type, Thing))>) -> Seq<
    (RecordKind, Seq<u8>),
> {
    Seq::new(
        2 * pairs.len(),
        |k: int|
            {
                let edge = sibling_edge(rel, pairs[k / 2]);
                if k % 2 == 0 {
                    (RecordKind::RelationSibling, edge.forward_encoding())
                } else {
                    (RecordKind::RelationSibling, edge.backward_encoding())
                }
            },
    )
}

/// Every choice of two items of `items`, the earlier one first: the first
/// item with each later one, then the second with each later one, and so on.
pub open spec fn pairs_of<T>(items: Seq<T>) -> Seq<(T, T)>
    decreases items.len(),
{
    if items.len() == 0 {
        Seq::empty()
    } else {
        Seq::new((items.len() - 1) as nat, |k: int| (items[0], items[k + 1])) + pairs_of(
            items.drop_first(),
        )
    }
}

/// Every key that one relation with its players writes: that the relation
/// exists, the role-player facts, and the shortcuts between the players.
pub open spec fn relation_puts(rel: Thing, players: Seq<(Type, Thing)>) -> Seq<
    (RecordKind, Seq<u8>),
> {
    entity_puts(rel) + relates_puts(rel, players) + sibling_puts(rel, pairs_of(players))
}

/// What `Itertools::tuple_combinations` yields for pairs on the items of
/// `players`, collected. The contract states the order that the adaptor
/// documents and its source shows: each item is paired with every later item,
/// and the pairs come sorted by the place of their first item, then of their
/// second. The items are copied, not changed.
#[verifier::external_body]
fn tuple_combinations(players: Vec<(Type, Thing)>) -> (pairs: Vec<((Type, Thing), (Type, Thing))>)
    ensures
        pairs@ == pairs_of(players@),
{
    players.into_iter().tuple_combinations().collect()
}

/// The keys of one logical mutation, gathered before any of them is written.
#[derive(Debug)]
pub struct WriteHandle {
    puts: Vec<Put>,
}

impl View for WriteHandle {
    type V = Seq<(RecordKind, Seq<u8>)>;

    /// The kinds and keys gathered so far, in the order in which they came.
    closed spec fn view(&self) -> Seq<(RecordKind, Seq<u8>)> {
        put_seq(self.puts@)
    }
}

impl WriteHandle {
    /// A handle that holds nothing yet.
    pub fn new() -> (writer: WriteHandle)
        ensures
            writer@ == Seq::<(RecordKind, Seq<u8>)>::empty(),
    {
        let writer = WriteHandle { puts: Vec::new() };
        assert(writer@ =~= Seq::empty());
        writer
    }

    /// How many keys the handle holds.
    pub fn len(&self) -> (n: usize)
        ensures
            n == self@.len(),
    {
        self.puts.len()
    }

    fn batch_put(&mut self, kind: RecordKind, key: &[u8])
        ensures
            final(self)@ == old(self)@.push((kind, key@)),
    {
        self.puts.push(Put { kind, key: slice_to_vec(key) });
        assert(self@ =~= old(self)@.push((kind, key@)));
    }

    /// Records that `entity` exists.
    pub fn put_entity(&mut self, entity: Thing)
        ensures
            final(self)@ == old(self)@ + entity_puts(entity),
    {
        let key = entity.to_bytes();
        self.batch_put(RecordKind::Thing, &key);
        assert(self@ =~= old(self)@ + entity_puts(entity));
    }

    /// Records that `attribute` exists.
    pub fn put_attribute(&mut self, attribute: Attribute)
        ensures
            final(self)@ == old(self)@ + attribute_puts(attribute),
    {
        let key = attribute.as_bytes();
        self.batch_put(RecordKind::Attribute, &key);
        assert(self@ =~= old(self)@ + attribute_puts(attribute));
    }

    /// Records that `owner` has `attribute`, under both keys of the fact.
    pub fn put_ownership(&mut self, owner: Thing, attribute: Attribute)
        ensures
            final(self)@ == old(self)@ + ownership_puts(owner, attribute),
    {
        let has_edge = HasEdge { owner, attr: attribute };
        let forward = has_edge.to_forward_bytes();
        let backward = has_edge.to_backward_bytes();
        self.batch_put(RecordKind::HasForward, &forward);
        self.batch_put(RecordKind::HasBackward, &backward);
        assert(self@ =~= old(self)@ + ownership_puts(owner, attribute));
    }

    /// Records the relation `rel` with its players: one key for the
    /// relation, two for each player, and two for each pair of players, so
    /// that the count of keys grows with the square of the count of players.
    pub fn put_relation(&mut self, rel: Thing, players: Vec<(Type, Thing)>)
        ensures
            final(self)@ == old(self)@ + relation_puts(rel, players@),
    {
        let key = rel.to_bytes();
        self.batch_put(RecordKind::Thing, &key);

        let mut i: usize = 0;
        while i < players.len()
            invariant
                i <= players@.len(),
                self@ == old(self)@ + entity_puts(rel) + relates_puts(rel, players@.take(i as int)),
            decreases players@.len() - i,
        {
            let (role_type, player) = players[i];
            let relates_edge = RelatesEdge { rel, role_type, player };
            let forward = relates_edge.to_forward_bytes();
            let backward = relates_edge.to_backward_bytes();
            self.batch_put(RecordKind::RelatesForward, &forward);
            self.batch_put(RecordKind::RelatesBackward, &backward);
            i = i + 1;
            assert(self@ =~= old(self)@ + entity_puts(rel) + relates_puts(
                rel,
                players@.take(i as int),
            ));
        }
        assert(players@.take(i as int) =~= players@);

        let ghost all_players = players@;
        let pairs = tuple_combinations(players);
        let mut j: usize = 0;
        while j < pairs.len()
            invariant
                j <= pairs@.len(),
                self@ == old(self)@ + entity_puts(rel) + relates_puts(rel, all_players)
                    + sibling_puts(rel, pairs@.take(j as int)),
            decreases pairs@.len() - j,
        {
            let ((lhs_role_type, lhs_player), (rhs_role_type, rhs_player)) = pairs[j];
            let shortcut_edge = RelationSiblingEdge {
                lhs_player,
                lhs_role_type,
                rel,
                rhs_role_type,
                rhs_player,
            };
            let forward = shortcut_edge.to_forward_bytes();
            let backward = shortcut_edge.to_backward_bytes();
            self.batch_put(RecordKind::RelationSibling, &forward);
            self.batch_put(RecordKind::RelationSibling, &backward);
            j = j + 1;
            assert(self@ =~= old(self)@ + entity_puts(rel) + relates_puts(rel, all_players)
                + sibling_puts(rel, pairs@.take(j as int)));
        }
        assert(pairs@.take(j as int) =~= pairs@);
    }
}

/// The name of the one partition of a store that is not partitioned.
pub const DEFAULT_PARTITION: &'static str = "default";

/// The directory of `store` below the directory of the backend: one of its
/// own where each kind has its store, none where there is a single store.
pub open spec fn store_dir(mode: Mode, store: int) -> Option<Seq<char>> {
    match mode {
        Mode::MultipleDatabases => Some(RecordKind::at(store).name()),
        _ => None,
    }
}

/// The name of `partition` in each store of the topology `mode`.
pub open spec fn partition_name(mode: Mode, partition: int) -> Seq<char> {
    match mode {
        Mode::MultipleColumnFamilies => RecordKind::at(partition).name(),
        _ => DEFAULT_PARTITION@,
    }
}

/// The bytes that open the forward key of every attribute that `owner` has.
pub open spec fn owned_prefix(owner: Thing) -> Seq<u8> {
    owner.encoding() + seq![EdgeType::Has.byte()]
}

/// The bytes that open the backward key of every owner of `attribute`.
pub open spec fn owners_prefix(attribute: Attribute) -> Seq<u8> {
    attribute.encoding() + seq![EdgeType::Has.byte()]
}

/// The bytes that open the key of every shortcut that leads from `start`,
/// in the role `role_type`, through a relation of the type `relation_type`.
pub open spec fn siblings_prefix(start: Thing, role_type: Type, relation_type: Type) -> Seq<u8> {
    start.encoding() + seq![EdgeType::Sibling.byte()] + role_type.encoding()
        + relation_type.encoding()
}

/// A point among the shortcuts that lead from `start`: their prefix, then
/// `relation_id` where a key has the identifier of its relation, then `tail`
/// over the first bytes of what follows.
pub open spec fn siblings_seek(
    start: Thing,
    role_type: Type,
    relation_type: Type,
    relation_id: u64,
    tail: u64,
) -> Seq<u8> {
    siblings_prefix(start, role_type, relation_type) + be_bytes(relation_id as nat, 8) + be_bytes(
        tail as nat,
        8,
    )
}

/// The bytes of the key that was found, if one was.
pub open spec fn found_bytes(found: Option<&[u8]>) -> Option<Seq<u8>> {
    match found {
        Some(key) => Some(key@),
        None => None,
    }
}

/// The attribute that the forward key `found` gives to `owner`: the key has
/// to begin with the prefix of `owner` and be the forward key of an
/// ownership edge.
pub open spec fn one_has(owner: Thing, found: Option<Seq<u8>>) -> Option<Attribute> {
    match found {
        Some(key) => if owned_prefix(owner).is_prefix_of(key) {
            match HasEdge::forward_decoding(key) {
                Some(edge) => Some(edge.attr),
                None => None,
            }
        } else {
            None
        },
        None => None,
    }
}

/// The owner that the backward key `found` gives to `attribute`: the key
/// has to begin with the prefix of `attribute` and be the backward key of an
/// ownership edge.
pub open spec fn one_owner(attribute: Attribute, found: Option<Seq<u8>>) -> Option<Thing> {
    match found {
        Some(key) => if owners_prefix(attribute).is_prefix_of(key) {
            match HasEdge::backward_decoding(key) {
                Some(edge) => Some(edge.owner),
                None => None,
            }
        } else {
            None
        },
        None => None,
    }
}

/// The player at the far end of the shortcut that `key` is the key of.
pub open spec fn sibling_at(key: Seq<u8>) -> Option<Thing> {
    match RelationSiblingEdge::decoding(key) {
        Some(edge) => Some(edge.rhs_player),
        None => None,
    }
}

/// The sibling that the key `found` gives to `start`: the key has to begin
/// with the prefix of the shortcuts of `start` and be the key of a shortcut.
pub open spec fn one_sibling(
    start: Thing,
    role_type: Type,
    relation_type: Type,
    found: Option<Seq<u8>>,
) -> Option<Thing> {
    match found {
        Some(key) => if siblings_prefix(start, role_type, relation_type).is_prefix_of(key) {
            sibling_at(key)
        } else {
            None
        },
        None => None,
    }
}

/// The siblings of `start` that the walk `keys` shows: the far players of
/// the keys that the scan takes, in the order of the keys. A key that is not
/// the key of a shortcut is passed over.
pub open spec fn siblings(
    start: Thing,
    role_type: Type,
    relation_type: Type,
    keys: Seq<Seq<u8>>,
) -> Seq<Thing> {
    leading_run(keys, siblings_prefix(start, role_type, relation_type)).filter_map(
        far_player(),
    )
}

/// `sibling_at` as a function value.
pub open spec fn far_player() -> spec_fn(Seq<u8>) -> Option<Thing> {
    |key: Seq<u8>| sibling_at(key)
}

/// The directory that `dir` names, if it names one.
pub open spec fn dir_chars(dir: Option<&'static str>) -> Option<Seq<char>> {
    match dir {
        Some(name) => Some(name@),
        None => None,
    }
}

/// The keyspace at place `i` in the list of all keyspaces of the topology
/// `mode`.
pub open spec fn location_at(mode: Mode, i: int) -> (int, int) {
    match mode {
        Mode::SingleColumnFamily => (0, 0),
        Mode::MultipleColumnFamilies => (0, i),
        Mode::MultipleDatabases => (i, 0),
    }
}

/// The sum of `counts`.
pub open spec fn total(counts: Seq<usize>) -> nat
    decreases counts.len(),
{
    if counts.len() == 0 {
        0
    } else {
        total(counts.drop_last()) + counts.last() as nat
    }
}

/// What a query asks of the store: walk the keyspace `location` in
/// ascending order from the key `start` on, for as long as the keys begin with
/// `prefix`.
#[derive(Debug)]
pub struct Scan {
    pub location: Location,
    pub prefix: Vec<u8>,
    pub start: Vec<u8>,
}

impl Scan {
    /// Whether the walk goes on after `key`: whether `key` begins with the
    /// prefix of the scan.
    pub fn admits(&self, key: &[u8]) -> (b: bool)
        ensures
            b == self.prefix@.is_prefix_of(key@),
    {
        starts_with(key, self.prefix.as_slice())
    }
}

/// A storage backend: a topology, without the stores themselves.
#[derive(Copy, Clone, Debug, PartialEq, Eq, Structural)]
pub struct Storage {
    pub mode: Mode,
}

impl Storage {
    /// The backend with the topology `mode`.
    pub fn new(mode: Mode) -> (storage: Storage)
        ensures
            storage.mode == mode,
    {
        Storage { mode }
    }

    /// How many stores the backend has.
    pub fn store_count(&self) -> (n: usize)
        ensures
            n == store_count(self.mode),
    {
        match self.mode {
            Mode::MultipleDatabases => RECORD_KINDS,
            _ => 1,
        }
    }

    /// How many partitions each store of the backend has.
    pub fn partition_count(&self) -> (n: usize)
        ensures
            n == partition_count(self.mode),
    {
        match self.mode {
            Mode::MultipleColumnFamilies => RECORD_KINDS,
            _ => 1,
        }
    }

    /// The keyspace that holds the records of `kind`.
    pub fn locate(&self, kind: RecordKind) -> (location: Location)
        ensures
            location.store == store_of(self.mode, kind),
            location.partition == partition_of(self.mode, kind),
            location.store < store_count(self.mode),
            location.partition < partition_count(self.mode),
    {
        match self.mode {
            Mode::SingleColumnFamily => Location { store: 0, partition: 0 },
            Mode::MultipleColumnFamilies => Location { store: 0, partition: kind.to_index() },
            Mode::MultipleDatabases => Location { store: kind.to_index(), partition: 0 },
        }
    }

    /// A handle that gathers the keys of one mutation.
    pub fn writer(&self) -> (writer: WriteHandle)
        ensures
            writer@ == Seq::<(RecordKind, Seq<u8>)>::empty(),
    {
        WriteHandle::new()
    }

    /// Turns the keys that `writer` gathered into one batch for each store,
    /// store by store. Each batch holds the keys of the kinds that live in its
    /// store, in the order in which they were gathered; a store that got no key
    /// still has its batch, an empty one. With a single store that is one batch
    /// with every key. The batches are independent writes: nothing here makes
    /// the batches of several stores atomic together.
    pub fn commit(&self, writer: WriteHandle) -> (batches: Vec<Batch>)
        ensures
            batches@.len() == store_count(self.mode),
            forall|s: int|
                #![trigger batches@[s]]
                0 <= s < batches@.len() ==> batches@[s].store == s && put_seq(batches@[s].puts@)
                    == puts_for_store(writer@, self.mode, s),
    {
        let count = self.store_count();
        let mut batches: Vec<Batch> = Vec::new();
        let mut s: usize = 0;
        while s < count
            invariant
                s <= count,
                batches@.len() == s,
                forall|t: int|
                    #![trigger batches@[t]]
                    0 <= t < s ==> batches@[t].store == t && batches@[t].puts@.len() == 0,
            decreases count - s,
        {
            batches.push(Batch { store: s, puts: Vec::new() });
            s = s + 1;
        }
        let ghost gathered = writer@;
        proof {
            assert forall|t: int| 0 <= t < count implies put_seq(#[trigger] batches@[t].puts@)
                == puts_for_store(gathered.take(0), self.mode, t) by {
                reveal(Seq::filter);
                assert(put_seq(batches@[t].puts@) =~= Seq::empty());
            }
        }
        let puts = writer.puts;
        for put in iter: puts
            invariant
                count == store_count(self.mode),
                batches@.len() == count,
                iter.seq().len() == gathered.len(),
                forall|i: int| 0 <= i < gathered.len() ==> (#[trigger] iter.seq()[i])@ == gathered[i],
                forall|t: int|
                    #![trigger batches@[t]]
                    0 <= t < count ==> batches@[t].store == t && put_seq(batches@[t].puts@)
                        == puts_for_store(gathered.take(iter.index() as int), self.mode, t),
        {
            let ghost done = iter.index() as int;
            let ghost before = batches@;
            let store = self.locate(put.kind).store;
            batches[store].puts.push(put);
            proof {
                assert forall|t: int| 0 <= t < count implies batches@[t].store == t && put_seq(
                    #[trigger] batches@[t].puts@,
                ) == puts_for_store(gathered.take(done + 1), self.mode, t) by {
                    reveal(Seq::filter);
                    assert(gathered.take(done + 1).drop_last() =~= gathered.take(done));
                    assert(gathered.take(done + 1).last() == gathered[done]);
                    if t == store {
                        assert(put_seq(batches@[t].puts@) =~= put_seq(before[t].puts@).push(
                            gathered[done],
                        ));
                    } else {
                        assert(batches@[t] == before[t]);
                    }
                }
            }
        }
        proof {
            assert(gathered.take(gathered.len() as int) =~= gathered);
        }
        batches
    }
}

impl Storage {
    /// For each store, the directory to open it in, below the directory of
    /// the backend: `None` for the directory of the backend itself.
    pub fn store_dirs(&self) -> (dirs: Vec<Option<&'static str>>)
        ensures
            dirs@.len() == store_count(self.mode),
            forall|s: int|
                0 <= s < dirs@.len() ==> dir_chars(#[trigger] dirs@[s]) == store_dir(self.mode, s),
    {
        let mut dirs: Vec<Option<&'static str>> = Vec::new();
        match self.mode {
            Mode::MultipleDatabases => {
                let kinds = RecordKind::all();
                let mut s: usize = 0;
                while s < RECORD_KINDS
                    invariant
                        s <= RECORD_KINDS,
                        dirs@.len() == s,
                        self.mode == Mode::MultipleDatabases,
                        forall|k: int|
                            0 <= k < RECORD_KINDS ==> #[trigger] kinds@[k] == RecordKind::at(k),
                        forall|t: int|
                            0 <= t < s ==> dir_chars(#[trigger] dirs@[t]) == store_dir(
                                self.mode,
                                t,
                            ),
                    decreases RECORD_KINDS - s,
                {
                    dirs.push(Some(kinds[s].to_name()));
                    s = s + 1;
                }
            },
            _ => {
                dirs.push(None);
            },
        }
        dirs
    }

    /// The names of the partitions that every store is opened with.
    pub fn partition_names(&self) -> (names: Vec<&'static str>)
        ensures
            names@.len() == partition_count(self.mode),
            forall|p: int|
                0 <= p < names@.len() ==> (#[trigger] names@[p])@ == partition_name(self.mode, p),
    {
        let mut names: Vec<&'static str> = Vec::new();
        match self.mode {
            Mode::MultipleColumnFamilies => {
                let kinds = RecordKind::all();
                let mut p: usize = 0;
                while p < RECORD_KINDS
                    invariant
                        p <= RECORD_KINDS,
                        names@.len() == p,
                        self.mode == Mode::MultipleColumnFamilies,
                        forall|k: int|
                            0 <= k < RECORD_KINDS ==> #[trigger] kinds@[k] == RecordKind::at(k),
                        forall|q: int|
                            0 <= q < p ==> (#[trigger] names@[q])@ == partition_name(self.mode, q),
                    decreases RECORD_KINDS - p,
                {
                    names.push(kinds[p].to_name());
                    p = p + 1;
                }
            },
            _ => {
                names.push(DEFAULT_PARTITION);
            },
        }
        names
    }

    /// Every keyspace of the backend, once: the keyspaces whose keys the
    /// backend's count of keys adds up.
    pub fn locations(&self) -> (locations: Vec<Location>)
        ensures
            locations@.len() == store_count(self.mode) * partition_count(self.mode),
            forall|i: int|
                0 <= i < locations@.len() ==> ((#[trigger] locations@[i]).store as int, locations@[i].partition as int)
                    == location_at(self.mode, i),
    {
        let mut locations: Vec<Location> = Vec::new();
        match self.mode {
            Mode::SingleColumnFamily => {
                locations.push(Location { store: 0, partition: 0 });
            },
            _ => {
                let kinds = RecordKind::all();
                let mut i: usize = 0;
                while i < RECORD_KINDS
                    invariant
                        i <= RECORD_KINDS,
                        locations@.len() == i,
                        forall|k: int|
                            0 <= k < RECORD_KINDS ==> #[trigger] kinds@[k] == RecordKind::at(k),
                        self.mode != Mode::SingleColumnFamily,
                        forall|j: int|
                            0 <= j < i ==> ((#[trigger] locations@[j]).store as int, locations@[j].partition as int)
                                == location_at(self.mode, j),
                    decreases RECORD_KINDS - i,
                {
                    locations.push(self.locate(kinds[i]));
                    i = i + 1;
                }
            },
        }
        locations
    }

    /// Adds up the counts of keys of the keyspaces. `None` where the sum is
    /// beyond `usize`.
    pub fn total_key_count(counts: &[usize]) -> (sum: Option<usize>)
        ensures
            match sum {
                Some(n) => n == total(counts@),
                None => total(counts@) > usize::MAX,
            },
    {
        let mut sum: usize = 0;
        let mut i: usize = 0;
        while i < counts.len()
            invariant
                i <= counts@.len(),
                sum == total(counts@.take(i as int)),
            decreases counts@.len() - i,
        {
            proof {
                assert(counts@.take(i + 1).drop_last() =~= counts@.take(i as int));
                lemma_total_grows(counts@, i + 1);
            }
            match sum.checked_add(counts[i]) {
                Some(next) => {
                    sum = next;
                },
                None => {
                    return None;
                },
            }
            i = i + 1;
        }
        proof {
            assert(counts@.take(i as int) =~= counts@);
        }
        Some(sum)
    }

    /// The scan that finds the attributes that `owner` has.
    pub fn scan_has(&self, owner: Thing) -> (scan: Scan)
        ensures
            scan.location.store == store_of(self.mode, RecordKind::HasForward),
            scan.location.partition == partition_of(self.mode, RecordKind::HasForward),
            scan.prefix@ == owned_prefix(owner),
            scan.start@ == scan.prefix@,
    {
        let mut prefix: Vec<u8> = Vec::new();
        append(&mut prefix, &owner.to_bytes());
        prefix.push(EdgeType::Has.to_byte());
        let start = prefix.clone();
        assert(prefix@ =~= owned_prefix(owner));
        Scan { location: self.locate(RecordKind::HasForward), prefix, start }
    }

    /// The scan that finds the owners of `attribute`.
    pub fn scan_owner(&self, attribute: &Attribute) -> (scan: Scan)
        ensures
            scan.location.store == store_of(self.mode, RecordKind::HasBackward),
            scan.location.partition == partition_of(self.mode, RecordKind::HasBackward),
            scan.prefix@ == owners_prefix(*attribute),
            scan.start@ == scan.prefix@,
    {
        let mut prefix: Vec<u8> = Vec::new();
        append(&mut prefix, &attribute.as_bytes());
        prefix.push(EdgeType::Has.to_byte());
        let start = prefix.clone();
        assert(prefix@ =~= owners_prefix(*attribute));
        Scan { location: self.locate(RecordKind::HasBackward), prefix, start }
    }

    /// The scan that finds the siblings of `start`: the players that a
    /// relation of the type `relation_type` joins to `start` where `start`
    /// plays the role `role_type`.
    pub fn scan_siblings(&self, start: Thing, role_type: Type, relation_type: Type) -> (scan: Scan)
        ensures
            scan.location.store == store_of(self.mode, RecordKind::RelationSibling),
            scan.location.partition == partition_of(self.mode, RecordKind::RelationSibling),
            scan.prefix@ == siblings_prefix(start, role_type, relation_type),
            scan.start@ == scan.prefix@,
    {
        let mut prefix: Vec<u8> = Vec::new();
        append(&mut prefix, &start.to_bytes());
        prefix.push(EdgeType::Sibling.to_byte());
        append(&mut prefix, &role_type.to_bytes());
        append(&mut prefix, &relation_type.to_bytes());
        let seek = prefix.clone();
        assert(prefix@ =~= siblings_prefix(start, role_type, relation_type));
        Scan { location: self.locate(RecordKind::RelationSibling), prefix, start: seek }
    }

    /// The scan for the siblings of `start` that begins its walk at a chosen
    /// point among them, not at their first key.
    pub fn seek_sibling(
        &self,
        start: Thing,
        role_type: Type,
        relation_type: Type,
        relation_id: u64,
        tail: u64,
    ) -> (scan: Scan)
        ensures
            scan.location.store == store_of(self.mode, RecordKind::RelationSibling),
            scan.location.partition == partition_of(self.mode, RecordKind::RelationSibling),
            scan.prefix@ == siblings_prefix(start, role_type, relation_type),
            scan.start@ == siblings_seek(start, role_type, relation_type, relation_id, tail),
    {
        let Scan { location, prefix, start: seek } = self.scan_siblings(
            start,
            role_type,
            relation_type,
        );
        let mut seek = seek;
        append(&mut seek, &u64_to_be(relation_id));
        append(&mut seek, &u64_to_be(tail));
        Scan { location, prefix, start: seek }
    }

    /// The scan for one sibling of `start`, picked by chance: the walk
    /// begins at a point among the shortcuts of `start` that two numbers from
    /// the random generator fix.
    pub fn scan_random_sibling(&self, start: Thing, role_type: Type, relation_type: Type) -> (scan:
        Scan)
        ensures
            scan.location.store == store_of(self.mode, RecordKind::RelationSibling),
            scan.location.partition == partition_of(self.mode, RecordKind::RelationSibling),
            scan.prefix@ == siblings_prefix(start, role_type, relation_type),
            exists|relation_id: u64, tail: u64|
                scan.start@ == siblings_seek(start, role_type, relation_type, relation_id, tail),
            scan.prefix@.is_prefix_of(scan.start@),
    {
        let relation_id = random_u64();
        let tail = random_u64();
        let scan = self.seek_sibling(start, role_type, relation_type, relation_id, tail);
        proof {
            lemma_be_bytes_len(relation_id as nat, 8);
            lemma_be_bytes_len(tail as nat, 8);
            assert(scan.prefix@ =~= scan.start@.subrange(0, scan.prefix@.len() as int));
        }
        scan
    }

    /// One attribute of `owner`, from the answer to `scan_has`: `found` is
    /// the first key of the walk, if the walk has one. Nothing where no key was
    /// found, or where the key is not one of `owner`.
    pub fn get_one_has(&self, owner: Thing, found: Option<&[u8]>) -> (attribute: Option<Attribute>)
        ensures
            attribute == one_has(owner, found_bytes(found)),
    {
        let scan = self.scan_has(owner);
        match found {
            Some(key) => {
                if !scan.admits(key) {
                    return None;
                }
                match HasEdge::from_bytes_forward(key) {
                    Some(HasEdge { attr, .. }) => Some(attr),
                    None => None,
                }
            },
            None => None,
        }
    }

    /// One owner of `attribute`, from the answer to `scan_owner`: `found`
    /// is the first key of the walk, if the walk has one. Nothing where no key
    /// was found, or where the key is not one of `attribute`.
    pub fn get_one_owner(&self, attribute: &Attribute, found: Option<&[u8]>) -> (owner: Option<
        Thing,
    >)
        ensures
            owner == one_owner(*attribute, found_bytes(found)),
    {
        let scan = self.scan_owner(attribute);
        match found {
            Some(key) => {
                if !scan.admits(key) {
                    return None;
                }
                match HasEdge::from_bytes_backward(key) {
                    Some(HasEdge { owner, .. }) => Some(owner),
                    None => None,
                }
            },
            None => None,
        }
    }

    /// The siblings of `start`, from the answer to `scan_siblings`: `keys`
    /// is the walk, or as much of it as reaches past the last key that the scan
    /// admits.
    pub fn iter_siblings(
        &self,
        start: Thing,
        role_type: Type,
        relation_type: Type,
        keys: Vec<Vec<u8>>,
    ) -> (things: Vec<Thing>)
        ensures
            things@ == siblings(start, role_type, relation_type, key_seq(keys@)),
    {
        let scan = self.scan_siblings(start, role_type, relation_type);
        let run = exact_prefix(keys, scan.prefix.as_slice());
        let mut things: Vec<Thing> = Vec::new();
        let mut i: usize = 0;
        while i < run.len()
            invariant
                i <= run@.len(),
                things@ == key_seq(run@).take(i as int).filter_map(far_player()),
            decreases run@.len() - i,
        {
            proof {
                key_seq(run@).lemma_filter_map_take_succ(far_player(), i as int);
            }
            match RelationSiblingEdge::from_bytes(run[i].as_slice()) {
                Some(RelationSiblingEdge { rhs_player, .. }) => {
                    things.push(rhs_player);
                },
                None => {},
            }
            i = i + 1;
        }
        proof {
            assert(key_seq(run@).take(i as int) =~= key_seq(run@));
        }
        things
    }

    /// One sibling of `start`, from the answer to `scan_random_sibling`:
    /// `found` is the first key of the walk, if the walk has one. Nothing where
    /// no key was found, or where the key is not one of the shortcuts of
    /// `start`: the result is never a player that is no sibling.
    pub fn get_random_sibling(
        &self,
        start: Thing,
        role_type: Type,
        relation_type: Type,
        found: Option<&[u8]>,
    ) -> (sibling: Option<Thing>)
        ensures
            sibling == one_sibling(start, role_type, relation_type, found_bytes(found)),
    {
        let scan = self.scan_siblings(start, role_type, relation_type);
        match found {
            Some(key) => {
                if !scan.admits(key) {
                    return None;
                }
                match RelationSiblingEdge::from_bytes(key) {
                    Some(RelationSiblingEdge { rhs_player, .. }) => Some(rhs_player),
                    None => None,
                }
            },
            None => None,
        }
    }
}

/// A sum of counts does not shrink as more counts are added.
pub proof fn lemma_total_grows(counts: Seq<usize>, n: int)
    requires
        0 <= n <= counts.len(),
    ensures
        total(counts.take(n)) <= total(counts),
    decreases counts.len() - n,
{
    if n < counts.len() {
        lemma_total_grows(counts, n + 1);
        assert(counts.take(n + 1).drop_last() =~= counts.take(n));
    } else {
        assert(counts.take(n) =~= counts);
    }
}

} // verus!
