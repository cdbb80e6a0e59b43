use perf_sim::bytes::{
    same_bytes, starts_with, u16_from_be, u16_to_be, u64_from_be, u64_to_be,
};
use perf_sim::concept::{
    Attribute, AttributeType, EdgeType, HasEdge, Prefix, RelatesEdge, RelationSiblingEdge, Thing,
    ThingID, Type, TypeID, ValueType, ATTRIBUTE_SIZE, ATTRIBUTE_TYPE_SIZE, HAS_EDGE_SIZE,
    RELATES_EDGE_SIZE, SIBLING_EDGE_SIZE, THING_SIZE, TYPE_SIZE,
};

fn entity(type_id: u16, id: u64) -> Thing {
    Thing { type_: Type { prefix: Prefix::Entity, id: TypeID { id: type_id } }, thing_id: ThingID { id } }
}

fn relation(type_id: u16, id: u64) -> Thing {
    Thing {
        type_: Type { prefix: Prefix::Relation, id: TypeID { id: type_id } },
        thing_id: ThingID { id },
    }
}

fn role(type_id: u16) -> Type {
    Type { prefix: Prefix::Role, id: TypeID { id: type_id } }
}

fn attribute(type_id: u16, value: u64) -> Attribute {
    Attribute {
        type_: AttributeType {
            prefix: Prefix::Attribute,
            id: TypeID { id: type_id },
            value_type: ValueType::Long,
        },
        value,
    }
}

const OWNER_BYTES: [u8; 11] = [0x22, 0x01, 0x02, 0x11, 0x22, 0x33, 0x44, 0x55, 0x66, 0x77, 0x88];
const NAME_BYTES: [u8; 12] = [0x44, 0x0a, 0x0b, 0x01, 0, 0, 0, 0, 0, 0, 0xab, 0xcd];

fn owner() -> Thing {
    entity(0x0102, 0x1122_3344_5566_7788)
}

fn name() -> Attribute {
    attribute(0x0a0b, 0xabcd)
}

#[test]
fn integers_are_written_most_significant_byte_first() {
    assert_eq!(u16_to_be(0x1234), [0x12, 0x34]);
    assert_eq!(u16_to_be(0), [0, 0]);
    assert_eq!(u16_to_be(u16::MAX), [0xff, 0xff]);
    assert_eq!(u64_to_be(0x0102_0304_0506_0708), [1, 2, 3, 4, 5, 6, 7, 8]);
    assert_eq!(u64_to_be(1), [0, 0, 0, 0, 0, 0, 0, 1]);
    assert_eq!(u64_to_be(u64::MAX), [0xff; 8]);
}

#[test]
fn integers_are_read_most_significant_byte_first() {
    assert_eq!(u16_from_be(&[0x12, 0x34]), 0x1234);
    assert_eq!(u64_from_be(&[1, 2, 3, 4, 5, 6, 7, 8]), 0x0102_0304_0506_0708);
    assert_eq!(u64_from_be(&[0xff; 8]), u64::MAX);
    for x in [0u64, 1, 255, 256, 0xdead_beef, u64::MAX - 1, u64::MAX] {
        assert_eq!(u64_from_be(&u64_to_be(x)), x);
    }
    for x in [0u16, 1, 255, 256, 0xbeef, u16::MAX] {
        assert_eq!(u16_from_be(&u16_to_be(x)), x);
    }
}

#[test]
fn byte_order_of_keys_is_the_order_of_numbers() {
    let ids = [0u64, 1, 255, 256, 65_535, 65_536, 1 << 40, u64::MAX];
    for pair in ids.windows(2) {
        assert!(u64_to_be(pair[0]) < u64_to_be(pair[1]));
        assert!(entity(1, pair[0]).to_bytes() < entity(1, pair[1]).to_bytes());
    }
}

#[test]
fn starts_with_compares_the_leading_bytes() {
    assert!(starts_with(&[1, 2, 3], &[1, 2]));
    assert!(starts_with(&[1, 2, 3], &[1, 2, 3]));
    assert!(starts_with(&[1, 2, 3], &[]));
    assert!(!starts_with(&[1, 2], &[1, 2, 3]));
    assert!(!starts_with(&[1, 2, 3], &[1, 3]));
    assert!(!starts_with(&[], &[0]));
    assert!(same_bytes(&[1, 2], &[1, 2]));
    assert!(same_bytes(&[], &[]));
    assert!(!same_bytes(&[1, 2], &[1, 2, 3]));
    assert!(!same_bytes(&[1, 2, 3], &[1, 2]));
    assert!(!same_bytes(&[1, 2], &[1, 3]));
}

#[test]
fn tag_bytes() {
    assert_eq!(Prefix::Role.to_byte(), 0x11);
    assert_eq!(Prefix::Entity.to_byte(), 0x22);
    assert_eq!(Prefix::Relation.to_byte(), 0x33);
    assert_eq!(Prefix::Attribute.to_byte(), 0x44);
    assert_eq!(ValueType::Long.to_byte(), 0x01);
    assert_eq!(EdgeType::Has.to_byte(), 0x55);
    assert_eq!(EdgeType::Sibling.to_byte(), 0x5a);
    assert_eq!(EdgeType::Relates.to_byte(), 0xaa);
}

#[test]
fn tag_bytes_are_read_back() {
    for prefix in [Prefix::Role, Prefix::Entity, Prefix::Relation, Prefix::Attribute] {
        assert_eq!(Prefix::from_byte(prefix.to_byte()), Some(prefix));
    }
    assert_eq!(Prefix::from_byte(0), None);
    assert_eq!(Prefix::from_byte(0x12), None);
    assert_eq!(Prefix::from_byte(0x55), None);
    assert_eq!(ValueType::from_byte(0x01), Some(ValueType::Long));
    assert_eq!(ValueType::from_byte(0x02), None);
}

#[test]
fn sizes() {
    assert_eq!(TYPE_SIZE, 3);
    assert_eq!(THING_SIZE, 11);
    assert_eq!(ATTRIBUTE_TYPE_SIZE, 4);
    assert_eq!(ATTRIBUTE_SIZE, 12);
    assert_eq!(HAS_EDGE_SIZE, 24);
    assert_eq!(RELATES_EDGE_SIZE, 26);
    assert_eq!(SIBLING_EDGE_SIZE, 40);
    assert_eq!(HasEdge::forward_encoding_size(), 24);
    assert_eq!(HasEdge::backward_encoding_size(), 24);
    assert_eq!(RelationSiblingEdge::encoding_size(), 40);
}

#[test]
fn type_key() {
    assert_eq!(role(0x0304).to_bytes(), [0x11, 0x03, 0x04]);
    assert_eq!(Type::from_bytes(&[0x11, 0x03, 0x04]), Some(role(0x0304)));
    assert_eq!(Type::from_bytes(&[0x10, 0x03, 0x04]), None);
    assert_eq!(Type::from_bytes(&[0x11, 0x03]), None);
    assert_eq!(Type::from_bytes(&[0x11, 0x03, 0x04, 0x05]), None);
}

#[test]
fn thing_key() {
    assert_eq!(owner().to_bytes(), OWNER_BYTES);
    assert_eq!(Thing::from_bytes(&OWNER_BYTES), Some(owner()));
    assert_eq!(Thing::from_bytes(&OWNER_BYTES[..10]), None);
    assert_eq!(Thing::from_bytes(&[]), None);
    let mut bad = OWNER_BYTES;
    bad[0] = 0x23;
    assert_eq!(Thing::from_bytes(&bad), None);
}

#[test]
fn attribute_type_key() {
    let type_ = name().type_;
    assert_eq!(type_.to_bytes(), [0x44, 0x0a, 0x0b, 0x01]);
    assert_eq!(AttributeType::from_bytes(&[0x44, 0x0a, 0x0b, 0x01]), Some(type_));
    assert_eq!(AttributeType::from_bytes(&[0x44, 0x0a, 0x0b, 0x02]), None);
    assert_eq!(AttributeType::from_bytes(&[0x45, 0x0a, 0x0b, 0x01]), None);
    assert_eq!(AttributeType::from_bytes(&[0x44, 0x0a, 0x0b]), None);
}

#[test]
fn attribute_key() {
    assert_eq!(name().as_bytes(), NAME_BYTES);
    assert_eq!(Attribute::from_bytes(&NAME_BYTES), Some(name()));
    assert_eq!(Attribute::from_bytes(&NAME_BYTES[1..]), None);
    let mut bad = NAME_BYTES;
    bad[3] = 0;
    assert_eq!(Attribute::from_bytes(&bad), None);
}

#[test]
fn has_edge_keys() {
    let edge = HasEdge { owner: owner(), attr: name() };
    let forward = edge.to_forward_bytes();
    let backward = edge.to_backward_bytes();
    assert_eq!(forward[..11], OWNER_BYTES);
    assert_eq!(forward[11], 0x55);
    assert_eq!(forward[12..], NAME_BYTES);
    assert_eq!(backward[..12], NAME_BYTES);
    assert_eq!(backward[12], 0x55);
    assert_eq!(backward[13..], OWNER_BYTES);
}

#[test]
fn has_edge_roundtrip() {
    let edge = HasEdge { owner: owner(), attr: name() };
    assert_eq!(HasEdge::from_bytes_forward(&edge.to_forward_bytes()), Some(edge));
    assert_eq!(HasEdge::from_bytes_backward(&edge.to_backward_bytes()), Some(edge));
}

#[test]
fn has_edge_rejects_what_is_no_key_of_its_layout() {
    let edge = HasEdge { owner: owner(), attr: name() };
    let forward = edge.to_forward_bytes();
    let backward = edge.to_backward_bytes();
    assert_eq!(HasEdge::from_bytes_forward(&backward), None);
    assert_eq!(HasEdge::from_bytes_backward(&forward), None);
    assert_eq!(HasEdge::from_bytes_forward(&forward[..23]), None);
    assert_eq!(HasEdge::from_bytes_forward(&[]), None);
    assert_eq!(HasEdge::from_bytes_backward(&[0u8; 25]), None);
    let mut wrong_tag = forward;
    wrong_tag[11] = 0xaa;
    assert_eq!(HasEdge::from_bytes_forward(&wrong_tag), None);
    let mut wrong_prefix = forward;
    wrong_prefix[0] = 0x00;
    assert_eq!(HasEdge::from_bytes_forward(&wrong_prefix), None);
}

#[test]
fn relates_edge_keys() {
    let rel = relation(7, 9);
    let player = entity(1, 5);
    let edge = RelatesEdge { rel, role_type: role(2), player };
    let forward = edge.to_forward_bytes();
    let backward = edge.to_backward_bytes();
    assert_eq!(forward[..11], rel.to_bytes());
    assert_eq!(forward[11], 0xaa);
    assert_eq!(forward[12..15], role(2).to_bytes());
    assert_eq!(forward[15..], player.to_bytes());
    assert_eq!(backward[..11], player.to_bytes());
    assert_eq!(backward[11], 0xaa);
    assert_eq!(backward[12..15], role(2).to_bytes());
    assert_eq!(backward[15..], rel.to_bytes());
    assert_eq!(
        forward,
        [
            0x33, 0, 7, 0, 0, 0, 0, 0, 0, 0, 9, 0xaa, 0x11, 0, 2, 0x22, 0, 1, 0, 0, 0, 0, 0, 0, 0,
            5
        ]
    );
}

#[test]
fn relates_edge_roundtrip() {
    let edge = RelatesEdge { rel: relation(7, 9), role_type: role(2), player: entity(1, 5) };
    assert_eq!(RelatesEdge::from_bytes_forward(&edge.to_forward_bytes()), Some(edge));
    assert_eq!(RelatesEdge::from_bytes_backward(&edge.to_backward_bytes()), Some(edge));
    assert_eq!(RelatesEdge::from_bytes_forward(&edge.to_forward_bytes()[1..]), None);
    let mut wrong_tag = edge.to_forward_bytes();
    wrong_tag[11] = 0x5a;
    assert_eq!(RelatesEdge::from_bytes_forward(&wrong_tag), None);
    assert_eq!(RelatesEdge::from_bytes_backward(&wrong_tag), None);
}

#[test]
fn relates_backward_is_forward_with_endpoints_swapped() {
    let edge = RelatesEdge { rel: relation(7, 9), role_type: role(2), player: entity(1, 5) };
    let swapped = RelatesEdge { rel: edge.player, role_type: edge.role_type, player: edge.rel };
    assert_eq!(edge.to_backward_bytes(), swapped.to_forward_bytes());
    assert_eq!(edge.to_forward_bytes(), swapped.to_backward_bytes());
}

fn shortcut() -> RelationSiblingEdge {
    RelationSiblingEdge {
        lhs_player: entity(1, 5),
        lhs_role_type: role(2),
        rel: relation(7, 9),
        rhs_role_type: role(3),
        rhs_player: entity(1, 6),
    }
}

fn mirror(edge: RelationSiblingEdge) -> RelationSiblingEdge {
    RelationSiblingEdge {
        lhs_player: edge.rhs_player,
        lhs_role_type: edge.rhs_role_type,
        rel: edge.rel,
        rhs_role_type: edge.lhs_role_type,
        rhs_player: edge.lhs_player,
    }
}

#[test]
fn sibling_edge_keys() {
    let edge = shortcut();
    let forward = edge.to_forward_bytes();
    assert_eq!(forward[..11], edge.lhs_player.to_bytes());
    assert_eq!(forward[11], 0x5a);
    assert_eq!(forward[12..15], edge.lhs_role_type.to_bytes());
    assert_eq!(forward[15..26], edge.rel.to_bytes());
    assert_eq!(forward[26..29], edge.rhs_role_type.to_bytes());
    assert_eq!(forward[29..], edge.rhs_player.to_bytes());
    let backward = edge.to_backward_bytes();
    assert_eq!(backward[..11], edge.rhs_player.to_bytes());
    assert_eq!(backward[11], 0x5a);
    assert_eq!(backward[12..15], edge.rhs_role_type.to_bytes());
    assert_eq!(backward[15..26], edge.rel.to_bytes());
    assert_eq!(backward[26..29], edge.lhs_role_type.to_bytes());
    assert_eq!(backward[29..], edge.lhs_player.to_bytes());
}

#[test]
fn sibling_edge_roundtrip() {
    let edge = shortcut();
    assert_eq!(RelationSiblingEdge::from_bytes(&edge.to_forward_bytes()), Some(edge));
    assert_eq!(RelationSiblingEdge::from_bytes(&edge.to_backward_bytes()), Some(mirror(edge)));
    assert_eq!(edge.to_backward_bytes(), mirror(edge).to_forward_bytes());
    assert_eq!(RelationSiblingEdge::from_bytes(&edge.to_forward_bytes()[..39]), None);
    let mut wrong_tag = edge.to_forward_bytes();
    wrong_tag[11] = 0x55;
    assert_eq!(RelationSiblingEdge::from_bytes(&wrong_tag), None);
    let mut wrong_role = edge.to_forward_bytes();
    wrong_role[26] = 0x99;
    assert_eq!(RelationSiblingEdge::from_bytes(&wrong_role), None);
}

#[test]
fn roundtrip_over_many_values() {
    let ids = [0u64, 1, 0xff, 0x100, 0x5a5a_5a5a_5a5a_5a5a, u64::MAX];
    let type_ids = [0u16, 1, 0x5a, 0xffff];
    for &id in &ids {
        for &type_id in &type_ids {
            let thing = entity(type_id, id);
            assert_eq!(Thing::from_bytes(&thing.to_bytes()), Some(thing));
            let attr = attribute(type_id, id);
            assert_eq!(Attribute::from_bytes(&attr.as_bytes()), Some(attr));
            let has = HasEdge { owner: thing, attr };
            assert_eq!(HasEdge::from_bytes_forward(&has.to_forward_bytes()), Some(has));
            assert_eq!(HasEdge::from_bytes_backward(&has.to_backward_bytes()), Some(has));
            let relates = RelatesEdge { rel: relation(type_id, id), role_type: role(type_id), player: thing };
            assert_eq!(RelatesEdge::from_bytes_forward(&relates.to_forward_bytes()), Some(relates));
            assert_eq!(RelatesEdge::from_bytes_backward(&relates.to_backward_bytes()), Some(relates));
            let sibling = RelationSiblingEdge {
                lhs_player: thing,
                lhs_role_type: role(type_id),
                rel: relation(type_id, !id),
                rhs_role_type: role(!type_id),
                rhs_player: entity(!type_id, !id),
            };
            assert_eq!(RelationSiblingEdge::from_bytes(&sibling.to_forward_bytes()), Some(sibling));
        }
    }
}
