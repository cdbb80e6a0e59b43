use std::collections::BTreeSet;

use perf_sim::concept::{
    Attribute, AttributeType, HasEdge, Prefix, RelatesEdge, RelationSiblingEdge, Thing, ThingID,
    Type, TypeID, ValueType,
};
use perf_sim::storage::{
    Batch, Location, Mode, Put, RecordKind, Scan, Storage, WriteHandle, DEFAULT_PARTITION,
    RECORD_KINDS,
};

const MODES: [Mode; 3] =
    [Mode::SingleColumnFamily, Mode::MultipleColumnFamilies, Mode::MultipleDatabases];

const KINDS: [RecordKind; 7] = [
    RecordKind::Thing,
    RecordKind::Attribute,
    RecordKind::HasForward,
    RecordKind::HasBackward,
    RecordKind::RelatesForward,
    RecordKind::RelatesBackward,
    RecordKind::RelationSibling,
];

fn person(id: u64) -> Thing {
    Thing { type_: Type { prefix: Prefix::Entity, id: TypeID { id: 1 } }, thing_id: ThingID { id } }
}

fn friendship(id: u64) -> Thing {
    Thing { type_: friendship_type(), thing_id: ThingID { id } }
}

fn friendship_type() -> Type {
    Type { prefix: Prefix::Relation, id: TypeID { id: 2 } }
}

fn role(id: u16) -> Type {
    Type { prefix: Prefix::Role, id: TypeID { id } }
}

fn name(value: u64) -> Attribute {
    Attribute {
        type_: AttributeType {
            prefix: Prefix::Attribute,
            id: TypeID { id: 3 },
            value_type: ValueType::Long,
        },
        value,
    }
}

/// A sorted store in memory: a set of keys for each partition of each store.
struct Engine {
    storage: Storage,
    stores: Vec<Vec<BTreeSet<Vec<u8>>>>,
}

impl Engine {
    fn open(mode: Mode) -> Engine {
        let storage = Storage::new(mode);
        let partitions = storage.partition_names().len();
        let stores = storage.store_dirs().iter().map(|_| vec![BTreeSet::new(); partitions]).collect();
        Engine { storage, stores }
    }

    fn write(&mut self, writer: WriteHandle) {
        for Batch { store, puts } in self.storage.commit(writer) {
            for Put { kind, key } in puts {
                let location = self.storage.locate(kind);
                assert_eq!(location.store, store);
                self.stores[store][location.partition].insert(key);
            }
        }
    }

    fn walk(&self, scan: &Scan) -> Vec<Vec<u8>> {
        let keys = &self.stores[scan.location.store][scan.location.partition];
        keys.range(scan.start.clone()..).cloned().collect()
    }

    fn first(&self, scan: &Scan) -> Option<Vec<u8>> {
        self.walk(scan).into_iter().next()
    }

    fn get_one_has(&self, owner: Thing) -> Option<Attribute> {
        let found = self.first(&self.storage.scan_has(owner));
        self.storage.get_one_has(owner, found.as_deref())
    }

    fn get_one_owner(&self, attribute: &Attribute) -> Option<Thing> {
        let found = self.first(&self.storage.scan_owner(attribute));
        self.storage.get_one_owner(attribute, found.as_deref())
    }

    fn siblings(&self, start: Thing, role_type: Type, relation_type: Type) -> Vec<Thing> {
        let keys = self.walk(&self.storage.scan_siblings(start, role_type, relation_type));
        self.storage.iter_siblings(start, role_type, relation_type, keys)
    }

    fn random_sibling(&self, start: Thing, role_type: Type, relation_type: Type) -> Option<Thing> {
        let scan = self.storage.scan_random_sibling(start, role_type, relation_type);
        let found = self.first(&scan);
        self.storage.get_random_sibling(start, role_type, relation_type, found.as_deref())
    }

    fn total_key_count(&self) -> usize {
        let counts: Vec<usize> = self
            .storage
            .locations()
            .iter()
            .map(|location| self.stores[location.store][location.partition].len())
            .collect();
        Storage::total_key_count(&counts).unwrap()
    }
}

fn puts_of(writer: WriteHandle) -> Vec<(RecordKind, Vec<u8>)> {
    let mut batches = Storage::new(Mode::SingleColumnFamily).commit(writer);
    assert_eq!(batches.len(), 1);
    batches.remove(0).puts.into_iter().map(|Put { kind, key }| (kind, key)).collect()
}

#[test]
fn record_kinds() {
    assert_eq!(RECORD_KINDS, 7);
    assert_eq!(RecordKind::all(), KINDS);
    for (i, kind) in KINDS.into_iter().enumerate() {
        assert_eq!(kind.to_index(), i);
    }
    let names: Vec<&str> = KINDS.into_iter().map(RecordKind::to_name).collect();
    assert_eq!(
        names,
        [
            "thing",
            "attribute",
            "has_forward",
            "has_backward",
            "relates_forward",
            "relates_backward",
            "relation_sibling"
        ]
    );
}

#[test]
fn single_keyspace_topology() {
    let storage = Storage::new(Mode::SingleColumnFamily);
    assert_eq!(storage.mode, Mode::SingleColumnFamily);
    assert_eq!(storage.store_count(), 1);
    assert_eq!(storage.partition_count(), 1);
    assert_eq!(storage.store_dirs(), [None]);
    assert_eq!(storage.partition_names(), ["default"]);
    assert_eq!(DEFAULT_PARTITION, "default");
    assert_eq!(storage.locations(), [Location { store: 0, partition: 0 }]);
    for kind in KINDS {
        assert_eq!(storage.locate(kind), Location { store: 0, partition: 0 });
    }
}

#[test]
fn partitioned_keyspace_topology() {
    let storage = Storage::new(Mode::MultipleColumnFamilies);
    assert_eq!(storage.store_count(), 1);
    assert_eq!(storage.partition_count(), 7);
    assert_eq!(storage.store_dirs(), [None]);
    assert_eq!(
        storage.partition_names(),
        [
            "thing",
            "attribute",
            "has_forward",
            "has_backward",
            "relates_forward",
            "relates_backward",
            "relation_sibling"
        ]
    );
    for (i, kind) in KINDS.into_iter().enumerate() {
        assert_eq!(storage.locate(kind), Location { store: 0, partition: i });
        assert_eq!(storage.locations()[i], Location { store: 0, partition: i });
    }
    assert_eq!(storage.locations().len(), 7);
}

#[test]
fn multiple_stores_topology() {
    let storage = Storage::new(Mode::MultipleDatabases);
    assert_eq!(storage.store_count(), 7);
    assert_eq!(storage.partition_count(), 1);
    assert_eq!(
        storage.store_dirs(),
        [
            Some("thing"),
            Some("attribute"),
            Some("has_forward"),
            Some("has_backward"),
            Some("relates_forward"),
            Some("relates_backward"),
            Some("relation_sibling")
        ]
    );
    assert_eq!(storage.partition_names(), ["default"]);
    for (i, kind) in KINDS.into_iter().enumerate() {
        assert_eq!(storage.locate(kind), Location { store: i, partition: 0 });
        assert_eq!(storage.locations()[i], Location { store: i, partition: 0 });
    }
    assert_eq!(storage.locations().len(), 7);
}

#[test]
fn a_new_writer_holds_nothing() {
    for mode in MODES {
        let writer = Storage::new(mode).writer();
        assert_eq!(writer.len(), 0);
        assert!(puts_of(writer).is_empty());
    }
    assert_eq!(WriteHandle::new().len(), 0);
}

#[test]
fn put_entity_writes_the_key_of_the_thing() {
    let mut writer = WriteHandle::new();
    writer.put_entity(person(5));
    assert_eq!(writer.len(), 1);
    assert_eq!(puts_of(writer), [(RecordKind::Thing, person(5).to_bytes().to_vec())]);
}

#[test]
fn put_attribute_writes_the_key_of_the_attribute() {
    let mut writer = WriteHandle::new();
    writer.put_attribute(name(9));
    assert_eq!(puts_of(writer), [(RecordKind::Attribute, name(9).as_bytes().to_vec())]);
}

#[test]
fn put_ownership_writes_two_keys() {
    let mut writer = WriteHandle::new();
    writer.put_ownership(person(5), name(9));
    let edge = HasEdge { owner: person(5), attr: name(9) };
    assert_eq!(
        puts_of(writer),
        [
            (RecordKind::HasForward, edge.to_forward_bytes().to_vec()),
            (RecordKind::HasBackward, edge.to_backward_bytes().to_vec()),
        ]
    );
}

fn relates(rel: Thing, role_type: Type, player: Thing) -> [(RecordKind, Vec<u8>); 2] {
    let edge = RelatesEdge { rel, role_type, player };
    [
        (RecordKind::RelatesForward, edge.to_forward_bytes().to_vec()),
        (RecordKind::RelatesBackward, edge.to_backward_bytes().to_vec()),
    ]
}

fn shortcuts(rel: Thing, lhs: (Type, Thing), rhs: (Type, Thing)) -> [(RecordKind, Vec<u8>); 2] {
    let edge = RelationSiblingEdge {
        lhs_player: lhs.1,
        lhs_role_type: lhs.0,
        rel,
        rhs_role_type: rhs.0,
        rhs_player: rhs.1,
    };
    [
        (RecordKind::RelationSibling, edge.to_forward_bytes().to_vec()),
        (RecordKind::RelationSibling, edge.to_backward_bytes().to_vec()),
    ]
}

#[test]
fn put_relation_without_players_writes_the_relation_only() {
    let mut writer = WriteHandle::new();
    writer.put_relation(friendship(1), vec![]);
    assert_eq!(puts_of(writer), [(RecordKind::Thing, friendship(1).to_bytes().to_vec())]);
}

#[test]
fn put_relation_with_one_player_writes_no_shortcut() {
    let rel = friendship(1);
    let mut writer = WriteHandle::new();
    writer.put_relation(rel, vec![(role(1), person(5))]);
    let mut expected = vec![(RecordKind::Thing, rel.to_bytes().to_vec())];
    expected.extend(relates(rel, role(1), person(5)));
    assert_eq!(puts_of(writer), expected);
}

#[test]
fn put_relation_with_two_players() {
    let rel = friendship(1);
    let a = (role(1), person(5));
    let b = (role(1), person(6));
    let mut writer = WriteHandle::new();
    writer.put_relation(rel, vec![a, b]);
    assert_eq!(writer.len(), 7);
    let mut expected = vec![(RecordKind::Thing, rel.to_bytes().to_vec())];
    expected.extend(relates(rel, a.0, a.1));
    expected.extend(relates(rel, b.0, b.1));
    expected.extend(shortcuts(rel, a, b));
    assert_eq!(puts_of(writer), expected);
}

#[test]
fn put_relation_pairs_each_player_with_every_later_one() {
    let rel = friendship(1);
    let a = (role(1), person(5));
    let b = (role(2), person(6));
    let c = (role(3), person(7));
    let d = (role(4), person(8));
    let mut writer = WriteHandle::new();
    writer.put_relation(rel, vec![a, b, c, d]);
    let mut expected = vec![(RecordKind::Thing, rel.to_bytes().to_vec())];
    for (role_type, player) in [a, b, c, d] {
        expected.extend(relates(rel, role_type, player));
    }
    for (lhs, rhs) in [(a, b), (a, c), (a, d), (b, c), (b, d), (c, d)] {
        expected.extend(shortcuts(rel, lhs, rhs));
    }
    assert_eq!(puts_of(writer), expected);
}

#[test]
fn a_relation_with_k_players_has_k_times_k_minus_one_shortcuts() {
    for k in 0..7u64 {
        let players: Vec<(Type, Thing)> = (0..k).map(|i| (role(1), person(i))).collect();
        let mut writer = WriteHandle::new();
        writer.put_relation(friendship(1), players);
        let puts = puts_of(writer);
        let count = |kind| puts.iter().filter(|put| put.0 == kind).count() as u64;
        assert_eq!(count(RecordKind::Thing), 1);
        assert_eq!(count(RecordKind::RelatesForward), k);
        assert_eq!(count(RecordKind::RelatesBackward), k);
        assert_eq!(count(RecordKind::RelationSibling), k * k.saturating_sub(1));
        let keys: BTreeSet<&Vec<u8>> =
            puts.iter().filter(|put| put.0 == RecordKind::RelationSibling).map(|put| &put.1).collect();
        assert_eq!(keys.len() as u64, k * k.saturating_sub(1));
    }
}

#[test]
fn puts_gather_in_order() {
    let mut writer = WriteHandle::new();
    writer.put_attribute(name(9));
    writer.put_entity(person(5));
    writer.put_ownership(person(5), name(9));
    let kinds: Vec<RecordKind> = puts_of(writer).into_iter().map(|put| put.0).collect();
    assert_eq!(
        kinds,
        [
            RecordKind::Attribute,
            RecordKind::Thing,
            RecordKind::HasForward,
            RecordKind::HasBackward
        ]
    );
}

fn mutation() -> WriteHandle {
    let mut writer = WriteHandle::new();
    writer.put_attribute(name(9));
    writer.put_entity(person(5));
    writer.put_ownership(person(5), name(9));
    writer.put_entity(person(6));
    writer.put_relation(friendship(1), vec![(role(1), person(5)), (role(1), person(6))]);
    writer
}

#[test]
fn commit_to_one_store_is_one_batch() {
    let all = puts_of(mutation());
    for mode in [Mode::SingleColumnFamily, Mode::MultipleColumnFamilies] {
        let batches = Storage::new(mode).commit(mutation());
        assert_eq!(batches.len(), 1);
        assert_eq!(batches[0].store, 0);
        let puts: Vec<(RecordKind, Vec<u8>)> =
            batches[0].puts.iter().map(|put| (put.kind, put.key.clone())).collect();
        assert_eq!(puts, all);
    }
}

#[test]
fn commit_to_seven_stores_is_one_batch_for_each() {
    let all = puts_of(mutation());
    let batches = Storage::new(Mode::MultipleDatabases).commit(mutation());
    assert_eq!(batches.len(), 7);
    for (i, batch) in batches.iter().enumerate() {
        assert_eq!(batch.store, i);
        let puts: Vec<(RecordKind, Vec<u8>)> =
            batch.puts.iter().map(|put| (put.kind, put.key.clone())).collect();
        let expected: Vec<(RecordKind, Vec<u8>)> =
            all.iter().filter(|put| put.0 == KINDS[i]).cloned().collect();
        assert_eq!(puts, expected);
    }
    let sizes: Vec<usize> = batches.iter().map(|batch| batch.puts.len()).collect();
    assert_eq!(sizes, [3, 1, 1, 1, 2, 2, 2]);
}

#[test]
fn commit_of_nothing_still_gives_each_store_its_batch() {
    for mode in MODES {
        let storage = Storage::new(mode);
        let batches = storage.commit(storage.writer());
        assert_eq!(batches.len(), storage.store_count());
        assert!(batches.iter().all(|batch| batch.puts.is_empty()));
    }
}

#[test]
fn scans_name_prefix_and_keyspace() {
    for mode in MODES {
        let storage = Storage::new(mode);
        let has = storage.scan_has(person(5));
        assert_eq!(has.location, storage.locate(RecordKind::HasForward));
        assert_eq!(has.prefix, [&person(5).to_bytes()[..], &[0x55]].concat());
        assert_eq!(has.start, has.prefix);

        let owner = storage.scan_owner(&name(9));
        assert_eq!(owner.location, storage.locate(RecordKind::HasBackward));
        assert_eq!(owner.prefix, [&name(9).as_bytes()[..], &[0x55]].concat());
        assert_eq!(owner.start, owner.prefix);

        let siblings = storage.scan_siblings(person(5), role(1), friendship_type());
        assert_eq!(siblings.location, storage.locate(RecordKind::RelationSibling));
        assert_eq!(
            siblings.prefix,
            [
                &person(5).to_bytes()[..],
                &[0x5a],
                &role(1).to_bytes(),
                &friendship_type().to_bytes()
            ]
            .concat()
        );
        assert_eq!(siblings.start, siblings.prefix);
    }
}

#[test]
fn seek_sibling_appends_the_two_numbers() {
    let storage = Storage::new(Mode::SingleColumnFamily);
    let scan = storage.seek_sibling(person(5), role(1), friendship_type(), 0x0102, 0xa0b0);
    let siblings = storage.scan_siblings(person(5), role(1), friendship_type());
    assert_eq!(scan.prefix, siblings.prefix);
    assert_eq!(scan.location, siblings.location);
    assert_eq!(
        scan.start,
        [&siblings.prefix[..], &[0, 0, 0, 0, 0, 0, 1, 2], &[0, 0, 0, 0, 0, 0, 0xa0, 0xb0]].concat()
    );
}

#[test]
fn a_random_scan_starts_among_the_shortcuts() {
    let storage = Storage::new(Mode::MultipleDatabases);
    let siblings = storage.scan_siblings(person(5), role(1), friendship_type());
    let mut starts = BTreeSet::new();
    for _ in 0..32 {
        let scan = storage.scan_random_sibling(person(5), role(1), friendship_type());
        assert_eq!(scan.prefix, siblings.prefix);
        assert_eq!(scan.location, siblings.location);
        assert_eq!(scan.start.len(), siblings.prefix.len() + 16);
        assert!(scan.start.starts_with(&scan.prefix));
        starts.insert(scan.start);
    }
    assert!(starts.len() > 1);
}

#[test]
fn a_scan_admits_the_keys_with_its_prefix() {
    let scan = Storage::new(Mode::SingleColumnFamily).scan_has(person(5));
    let edge = HasEdge { owner: person(5), attr: name(9) };
    assert!(scan.admits(&edge.to_forward_bytes()));
    assert!(scan.admits(&scan.prefix));
    assert!(!scan.admits(&edge.to_backward_bytes()));
    assert!(!scan.admits(&person(5).to_bytes()));
    assert!(!scan.admits(&HasEdge { owner: person(6), attr: name(9) }.to_forward_bytes()));
}

#[test]
fn owner_and_attribute_of_one_ownership_fact() {
    for mode in MODES {
        let mut engine = Engine::open(mode);
        let mut writer = engine.storage.writer();
        writer.put_attribute(name(9));
        writer.put_entity(person(5));
        writer.put_ownership(person(5), name(9));
        engine.write(writer);
        assert_eq!(engine.get_one_owner(&name(9)), Some(person(5)));
        assert_eq!(engine.get_one_has(person(5)), Some(name(9)));
        assert_eq!(engine.get_one_owner(&name(10)), None);
        assert_eq!(engine.get_one_owner(&name(8)), None);
        assert_eq!(engine.get_one_has(person(4)), None);
        assert_eq!(engine.get_one_has(person(6)), None);
    }
}

#[test]
fn lookups_in_an_empty_store_find_nothing() {
    for mode in MODES {
        let engine = Engine::open(mode);
        assert_eq!(engine.get_one_owner(&name(9)), None);
        assert_eq!(engine.get_one_has(person(5)), None);
        assert!(engine.siblings(person(5), role(1), friendship_type()).is_empty());
        assert_eq!(engine.random_sibling(person(5), role(1), friendship_type()), None);
        assert_eq!(engine.total_key_count(), 0);
    }
}

#[test]
fn a_found_key_of_another_owner_gives_nothing() {
    let storage = Storage::new(Mode::SingleColumnFamily);
    let edge = HasEdge { owner: person(5), attr: name(9) };
    let forward = edge.to_forward_bytes();
    let backward = edge.to_backward_bytes();
    assert_eq!(storage.get_one_has(person(5), Some(&forward)), Some(name(9)));
    assert_eq!(storage.get_one_has(person(6), Some(&forward)), None);
    assert_eq!(storage.get_one_has(person(5), Some(&backward)), None);
    assert_eq!(storage.get_one_has(person(5), Some(&forward[..20])), None);
    assert_eq!(storage.get_one_has(person(5), None), None);
    assert_eq!(storage.get_one_owner(&name(9), Some(&backward)), Some(person(5)));
    assert_eq!(storage.get_one_owner(&name(7), Some(&backward)), None);
    assert_eq!(storage.get_one_owner(&name(9), Some(&forward)), None);
    assert_eq!(storage.get_one_owner(&name(9), None), None);
}

#[test]
fn three_players_give_six_shortcuts_and_each_reaches_the_other_two() {
    let players = [(role(1), person(5)), (role(2), person(6)), (role(3), person(7))];
    for mode in MODES {
        let mut engine = Engine::open(mode);
        let mut writer = engine.storage.writer();
        writer.put_relation(friendship(1), players.to_vec());
        engine.write(writer);
        let location = engine.storage.locate(RecordKind::RelationSibling);
        let shortcut_keys = engine.stores[location.store][location.partition]
            .iter()
            .filter(|key| RelationSiblingEdge::from_bytes(key).is_some())
            .count();
        assert_eq!(shortcut_keys, 6);
        for (i, (role_type, player)) in players.into_iter().enumerate() {
            let found = engine.siblings(player, role_type, friendship_type());
            let expected: Vec<Thing> = players
                .into_iter()
                .enumerate()
                .filter(|(j, _)| *j != i)
                .map(|(_, (_, other))| other)
                .collect();
            assert_eq!(found, expected);
            assert!(engine.siblings(player, role(9), friendship_type()).is_empty());
        }
    }
}

#[test]
fn siblings_come_by_relation_then_by_player() {
    let mut engine = Engine::open(Mode::SingleColumnFamily);
    let mut writer = engine.storage.writer();
    writer.put_relation(friendship(2), vec![(role(1), person(5)), (role(1), person(9))]);
    writer.put_relation(friendship(1), vec![(role(1), person(8)), (role(1), person(5))]);
    writer.put_relation(
        friendship(3),
        vec![(role(1), person(7)), (role(1), person(5)), (role(1), person(6))],
    );
    engine.write(writer);
    assert_eq!(
        engine.siblings(person(5), role(1), friendship_type()),
        [person(8), person(9), person(6), person(7)]
    );
}

#[test]
fn iter_siblings_stops_at_the_first_key_without_the_prefix() {
    let storage = Storage::new(Mode::SingleColumnFamily);
    let key = |lhs: u64, rel: u64, rhs: u64| {
        RelationSiblingEdge {
            lhs_player: person(lhs),
            lhs_role_type: role(1),
            rel: friendship(rel),
            rhs_role_type: role(1),
            rhs_player: person(rhs),
        }
        .to_forward_bytes()
        .to_vec()
    };
    let keys = vec![key(5, 1, 6), key(5, 2, 7), key(6, 1, 5), key(5, 3, 8)];
    assert_eq!(
        storage.iter_siblings(person(5), role(1), friendship_type(), keys),
        [person(6), person(7)]
    );
    let keys = vec![key(6, 1, 5), key(5, 1, 6)];
    assert!(storage.iter_siblings(person(5), role(1), friendship_type(), keys).is_empty());
    assert!(storage.iter_siblings(person(5), role(1), friendship_type(), vec![]).is_empty());
}

#[test]
fn iter_siblings_passes_over_keys_that_are_no_shortcuts() {
    let storage = Storage::new(Mode::SingleColumnFamily);
    let prefix = storage.scan_siblings(person(5), role(1), friendship_type()).prefix;
    let good = RelationSiblingEdge {
        lhs_player: person(5),
        lhs_role_type: role(1),
        rel: friendship(4),
        rhs_role_type: role(1),
        rhs_player: person(6),
    }
    .to_forward_bytes()
    .to_vec();
    let short = prefix.clone();
    let mut long = good.clone();
    long.push(0);
    let mut broken = good.clone();
    broken[26] = 0;
    let keys = vec![short, broken, good, long];
    assert_eq!(storage.iter_siblings(person(5), role(1), friendship_type(), keys), [person(6)]);
}

#[test]
fn a_random_sibling_is_a_sibling() {
    let players: Vec<(Type, Thing)> = (0..6).map(|i| (role(1), person(i))).collect();
    for mode in MODES {
        let mut engine = Engine::open(mode);
        let mut writer = engine.storage.writer();
        for rel in 0..64u64 {
            writer.put_relation(friendship(rel << 57), players.clone());
        }
        engine.write(writer);
        let expected = engine.siblings(person(0), role(1), friendship_type());
        assert_eq!(expected.len(), 5 * 64);
        let mut hits = 0;
        for _ in 0..200 {
            if let Some(sibling) = engine.random_sibling(person(0), role(1), friendship_type()) {
                assert!(expected.contains(&sibling));
                assert_ne!(sibling, person(0));
                hits += 1;
            }
        }
        assert!(hits > 0);
        for _ in 0..20 {
            assert_eq!(engine.random_sibling(person(9), role(1), friendship_type()), None);
            assert_eq!(engine.random_sibling(person(0), role(2), friendship_type()), None);
        }
    }
}

#[test]
fn get_random_sibling_takes_the_key_only_with_the_prefix() {
    let storage = Storage::new(Mode::SingleColumnFamily);
    let edge = RelationSiblingEdge {
        lhs_player: person(5),
        lhs_role_type: role(1),
        rel: friendship(4),
        rhs_role_type: role(2),
        rhs_player: person(6),
    };
    let key = edge.to_forward_bytes();
    let backward = edge.to_backward_bytes();
    let sibling = |start, role_type, found| {
        storage.get_random_sibling(start, role_type, friendship_type(), found)
    };
    assert_eq!(sibling(person(5), role(1), Some(&key[..])), Some(person(6)));
    assert_eq!(sibling(person(5), role(2), Some(&key[..])), None);
    assert_eq!(sibling(person(6), role(1), Some(&key[..])), None);
    assert_eq!(sibling(person(6), role(2), Some(&backward[..])), Some(person(5)));
    assert_eq!(sibling(person(5), role(1), Some(&key[..39])), None);
    assert_eq!(sibling(person(5), role(1), None), None);
}

#[test]
fn total_key_count_adds_up() {
    assert_eq!(Storage::total_key_count(&[]), Some(0));
    assert_eq!(Storage::total_key_count(&[4]), Some(4));
    assert_eq!(Storage::total_key_count(&[1, 2, 3, 4, 5, 6, 7]), Some(28));
    assert_eq!(Storage::total_key_count(&[usize::MAX, 0]), Some(usize::MAX));
    assert_eq!(Storage::total_key_count(&[usize::MAX, 1]), None);
    assert_eq!(Storage::total_key_count(&[1, usize::MAX, 5]), None);
}

fn workload(engine: &mut Engine) {
    let mut writer = engine.storage.writer();
    for i in 0..8u64 {
        writer.put_attribute(name(100 + i));
        writer.put_entity(person(i));
        writer.put_ownership(person(i), name(100 + i));
    }
    engine.write(writer);
    for rel in 0..6u64 {
        let mut writer = engine.storage.writer();
        let players = (0..=rel % 4).map(|i| (role((i % 2) as u16), person((rel + i) % 8))).collect();
        writer.put_relation(friendship(rel), players);
        engine.write(writer);
    }
    let mut writer = engine.storage.writer();
    writer.put_ownership(person(3), name(100));
    writer.put_entity(person(3));
    engine.write(writer);
}

#[test]
fn the_three_topologies_answer_alike() {
    let mut engines: Vec<Engine> = MODES.into_iter().map(Engine::open).collect();
    for engine in engines.iter_mut() {
        workload(engine);
    }
    let total = engines[0].total_key_count();
    assert_eq!(total, 8 + 8 + 18 + (6 + 2 * 13 + 2 * 11));
    for engine in &engines[1..] {
        assert_eq!(engine.total_key_count(), total);
    }
    for i in 0..10u64 {
        let owner = engines[0].get_one_owner(&name(100 + i));
        let has = engines[0].get_one_has(person(i));
        assert_eq!(owner.is_some(), i < 8);
        assert_eq!(has.is_some(), i < 8);
        for engine in &engines[1..] {
            assert_eq!(engine.get_one_owner(&name(100 + i)), owner);
            assert_eq!(engine.get_one_has(person(i)), has);
        }
        for role_id in 0..3u16 {
            let siblings = engines[0].siblings(person(i), role(role_id), friendship_type());
            for engine in &engines[1..] {
                assert_eq!(engine.siblings(person(i), role(role_id), friendship_type()), siblings);
            }
            for tail in [0u64, 1 << 63, u64::MAX] {
                for rel in 0..7u64 {
                    let answers: Vec<Option<Thing>> = engines
                        .iter()
                        .map(|engine| {
                            let scan = engine.storage.seek_sibling(
                                person(i),
                                role(role_id),
                                friendship_type(),
                                rel,
                                tail,
                            );
                            let found = engine.first(&scan);
                            engine.storage.get_random_sibling(
                                person(i),
                                role(role_id),
                                friendship_type(),
                                found.as_deref(),
                            )
                        })
                        .collect();
                    assert_eq!(answers[1], answers[0]);
                    assert_eq!(answers[2], answers[0]);
                }
            }
        }
    }
    assert_eq!(engines[0].get_one_owner(&name(100)), Some(person(0)));
}

#[test]
fn a_walk_may_be_cut_after_the_first_key_that_is_not_admitted() {
    let mut engine = Engine::open(Mode::SingleColumnFamily);
    let mut writer = engine.storage.writer();
    for rel in 0..5u64 {
        writer.put_relation(friendship(rel), vec![(role(1), person(5)), (role(1), person(rel + 10))]);
    }
    engine.write(writer);
    let scan = engine.storage.scan_siblings(person(5), role(1), friendship_type());
    let walk = engine.walk(&scan);
    let all = engine.storage.iter_siblings(person(5), role(1), friendship_type(), walk.clone());
    assert_eq!(all, [person(10), person(11), person(12), person(13), person(14)]);
    let admitted = walk.iter().take_while(|key| scan.admits(key)).count();
    assert_eq!(admitted, 5);
    assert!(walk.len() > admitted);
    for cut in admitted..=walk.len() {
        let keys = walk[..cut].to_vec();
        assert_eq!(engine.storage.iter_siblings(person(5), role(1), friendship_type(), keys), all);
    }
}

#[test]
fn topologies_are_read_by_name() {
    assert_eq!(Mode::from_name(b"SINGLE"), Some(Mode::SingleColumnFamily));
    assert_eq!(Mode::from_name(b"CF"), Some(Mode::MultipleColumnFamilies));
    assert_eq!(Mode::from_name(b"DB"), Some(Mode::MultipleDatabases));
    for name in ["", "single", "SINGLE ", "SINGL", "C", "CFS", "DB\n", "db", "BD"] {
        assert_eq!(Mode::from_name(name.as_bytes()), None);
    }
}
