use perf_sim::agent::{
    friend_role, friendship_type, make_friendship_as, make_random_friendships,
    make_supernode_friendships, name_type, person_type, pick_supernode, register_person,
    register_person_as, RANDOM_FRIENDSHIPS,
};
use perf_sim::concept::{
    Attribute, AttributeType, HasEdge, Prefix, RelatesEdge, RelationSiblingEdge, Thing, ThingID,
    Type, TypeID, ValueType,
};
use perf_sim::storage::{Mode, Put, RecordKind, Storage, WriteHandle};

fn puts_of(writer: WriteHandle) -> Vec<(RecordKind, Vec<u8>)> {
    let mut batches = Storage::new(Mode::SingleColumnFamily).commit(writer);
    batches.remove(0).puts.into_iter().map(|Put { kind, key }| (kind, key)).collect()
}

fn person(id: u64) -> Thing {
    Thing { type_: person_type(), thing_id: ThingID { id } }
}

fn name(value: u64) -> Attribute {
    Attribute { type_: name_type(), value }
}

#[test]
fn the_types_of_the_workload() {
    assert_eq!(person_type(), Type { prefix: Prefix::Entity, id: TypeID { id: 0 } });
    assert_eq!(friendship_type(), Type { prefix: Prefix::Relation, id: TypeID { id: 0 } });
    assert_eq!(friend_role(), Type { prefix: Prefix::Role, id: TypeID { id: 0 } });
    assert_eq!(
        name_type(),
        AttributeType { prefix: Prefix::Attribute, id: TypeID { id: 0 }, value_type: ValueType::Long }
    );
    assert_eq!(RANDOM_FRIENDSHIPS, 5);
}

#[test]
fn registering_a_person_writes_name_person_and_ownership() {
    let mut writer = WriteHandle::new();
    let registered = register_person_as(&mut writer, name(0xbaa1), 42);
    assert_eq!(registered, person(42));
    let edge = HasEdge { owner: person(42), attr: name(0xbaa1) };
    assert_eq!(
        puts_of(writer),
        [
            (RecordKind::Attribute, name(0xbaa1).as_bytes().to_vec()),
            (RecordKind::Thing, person(42).to_bytes().to_vec()),
            (RecordKind::HasForward, edge.to_forward_bytes().to_vec()),
            (RecordKind::HasBackward, edge.to_backward_bytes().to_vec()),
        ]
    );
}

#[test]
fn a_registered_person_is_a_person_with_the_name() {
    let mut writer = WriteHandle::new();
    let first = register_person(&mut writer, name(1));
    let second = register_person(&mut writer, name(2));
    assert_eq!(first.type_, person_type());
    assert_eq!(second.type_, person_type());
    assert_ne!(first, second);
    let puts = puts_of(writer);
    assert_eq!(puts.len(), 8);
    assert_eq!(puts[1], (RecordKind::Thing, first.to_bytes().to_vec()));
    let edge = HasEdge { owner: second, attr: name(2) };
    assert_eq!(puts[7], (RecordKind::HasBackward, edge.to_backward_bytes().to_vec()));
}

fn friendship_keys(id: u64, popular: Thing, person: Thing) -> Vec<(RecordKind, Vec<u8>)> {
    let rel = Thing { type_: friendship_type(), thing_id: ThingID { id } };
    let mut expected = vec![(RecordKind::Thing, rel.to_bytes().to_vec())];
    for player in [popular, person] {
        let edge = RelatesEdge { rel, role_type: friend_role(), player };
        expected.push((RecordKind::RelatesForward, edge.to_forward_bytes().to_vec()));
        expected.push((RecordKind::RelatesBackward, edge.to_backward_bytes().to_vec()));
    }
    let shortcut = RelationSiblingEdge {
        lhs_player: popular,
        lhs_role_type: friend_role(),
        rel,
        rhs_role_type: friend_role(),
        rhs_player: person,
    };
    expected.push((RecordKind::RelationSibling, shortcut.to_forward_bytes().to_vec()));
    expected.push((RecordKind::RelationSibling, shortcut.to_backward_bytes().to_vec()));
    expected
}

#[test]
fn a_friendship_is_a_relation_with_two_friends() {
    let mut writer = WriteHandle::new();
    make_friendship_as(&mut writer, 7, person(1), person(2));
    assert_eq!(puts_of(writer), friendship_keys(7, person(1), person(2)));
}

#[test]
fn no_owner_no_friendship() {
    let mut writer = WriteHandle::new();
    make_supernode_friendships(&mut writer, person(2), None);
    assert_eq!(writer.len(), 0);
}

#[test]
fn a_found_owner_becomes_a_friend() {
    let mut writer = WriteHandle::new();
    make_supernode_friendships(&mut writer, person(2), Some(person(1)));
    let puts = puts_of(writer);
    assert_eq!(puts.len(), 7);
    let rel = Thing::from_bytes(&puts[0].1).unwrap();
    assert_eq!(rel.type_, friendship_type());
    assert_eq!(puts, friendship_keys(rel.thing_id.id, person(1), person(2)));
}

#[test]
fn each_found_sibling_becomes_a_friend() {
    let randos = vec![Some(person(10)), None, Some(person(11)), None, None];
    let mut writer = WriteHandle::new();
    make_random_friendships(&mut writer, person(2), &randos);
    let puts = puts_of(writer);
    assert_eq!(puts.len(), 14);
    let first = Thing::from_bytes(&puts[0].1).unwrap();
    let second = Thing::from_bytes(&puts[7].1).unwrap();
    assert_eq!(puts[..7], friendship_keys(first.thing_id.id, person(10), person(2)));
    assert_eq!(puts[7..], friendship_keys(second.thing_id.id, person(11), person(2)));

    let mut writer = WriteHandle::new();
    make_random_friendships(&mut writer, person(2), &vec![None; 5]);
    assert_eq!(writer.len(), 0);
    make_random_friendships(&mut writer, person(2), &vec![]);
    assert_eq!(writer.len(), 0);
}

#[test]
fn a_picked_supernode_is_one_of_the_names() {
    let names = vec![name(0xbaa1), name(0xc0ffee), name(0x01af)];
    let mut seen = Vec::new();
    for _ in 0..200 {
        let picked = pick_supernode(&names).unwrap();
        assert!(names.contains(&picked));
        if !seen.contains(&picked) {
            seen.push(picked);
        }
    }
    assert!(seen.len() > 1);
    assert_eq!(pick_supernode(&vec![]), None);
    assert_eq!(pick_supernode(&vec![name(5)]), Some(name(5)));
}
