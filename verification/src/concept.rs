//! The domain primitives of the graph model and their fixed-width keys.
//!
//! Every primitive has an `encoding`: the bytes that stand for it inside a
//! key. The encoding of a composite is the concatenation of the encodings of
//! its fields, in the order in which the fields are declared. `decoding` is
//! the inverse: it accepts exactly the byte strings that are encodings.

use crate::bytes::{
    be_bytes, be_value, lemma_be_bytes_len, lemma_be_bytes_of_value, lemma_be_value_of_bytes,
    lemma_fits_bound, lemma_u16_fits, lemma_u64_fits, u16_from_be, u16_to_be, u64_from_be,
    u64_to_be, write_at,
};
use vstd::prelude::*;
use vstd::slice::slice_subrange;

verus! {

/// Bytes in the key of a [`Type`].
pub const TYPE_SIZE: usize = 3;

/// Bytes in the key of a [`Thing`].
pub const THING_SIZE: usize = 11;

/// Bytes in the key of an [`AttributeType`].
pub const ATTRIBUTE_TYPE_SIZE: usize = 4;

/// Bytes in the key of an [`Attribute`].
pub const ATTRIBUTE_SIZE: usize = 12;

/// The four top-level categories of concepts.
#[derive(Copy, Clone, Debug, PartialEq, Eq, Hash, Structural)]
pub enum Prefix {
    Role,
    Entity,
    Relation,
    Attribute,
}

impl Prefix {
    /// The byte that tags this category in a key.
    pub open spec fn byte(self) -> u8 {
        match self {
            Prefix::Role => 0x11,
            Prefix::Entity => 0x22,
            Prefix::Relation => 0x33,
            Prefix::Attribute => 0x44,
        }
    }

    /// The category that `b` tags, if any.
    pub open spec fn of_byte(b: u8) -> Option<Prefix> {
        if b == 0x11 {
            Some(Prefix::Role)
        } else if b == 0x22 {
            Some(Prefix::Entity)
        } else if b == 0x33 {
            Some(Prefix::Relation)
        } else if b == 0x44 {
            Some(Prefix::Attribute)
        } else {
            None
        }
    }

    /// The tag byte, as it is written into a key.
    pub fn to_byte(self) -> (b: u8)
        ensures
            b == self.byte(),
    {
        match self {
            Prefix::Role => 0x11,
            Prefix::Entity => 0x22,
            Prefix::Relation => 0x33,
            Prefix::Attribute => 0x44,
        }
    }

    /// Reads a tag byte. Nothing for a byte that is no tag.
    pub fn from_byte(b: u8) -> (r: Option<Prefix>)
        ensures
            r == Prefix::of_byte(b),
    {
        if b == 0x11 {
            Some(Prefix::Role)
        } else if b == 0x22 {
            Some(Prefix::Entity)
        } else if b == 0x33 {
            Some(Prefix::Relation)
        } else if b == 0x44 {
            Some(Prefix::Attribute)
        } else {
            None
        }
    }

    /// A tag byte names one category, and every category has a tag byte.
    pub proof fn lemma_byte_roundtrip(self)
        ensures
            Prefix::of_byte(self.byte()) == Some(self),
            forall|b: u8| Prefix::of_byte(b) == Some(self) ==> b == self.byte(),
    {
    }
}

/// A 16-bit identifier of a type within its category.
#[derive(Copy, Clone, Debug, PartialEq, Eq, Hash, Structural)]
pub struct TypeID {
    pub id: u16,
}

/// The type of a thing: a category and an identifier within it.
#[derive(Copy, Clone, Debug, PartialEq, Eq, Hash, Structural)]
pub struct Type {
    pub prefix: Prefix,
    pub id: TypeID,
}

impl Type {
    /// The category tag, then the identifier, most significant byte first.
    pub open spec fn encoding(self) -> Seq<u8> {
        seq![self.prefix.byte()] + be_bytes(self.id.id as nat, 2)
    }

    /// The type that `bytes` is the encoding of, if there is one.
    pub open spec fn decoding(bytes: Seq<u8>) -> Option<Type> {
        if bytes.len() == TYPE_SIZE {
            match Prefix::of_byte(bytes[0]) {
                Some(prefix) => Some(
                    Type { prefix, id: TypeID { id: be_value(bytes.subrange(1, 3)) as u16 } },
                ),
                None => None,
            }
        } else {
            None
        }
    }

    /// The key: the bytes of the encoding.
    pub fn to_bytes(self) -> (bytes: [u8; TYPE_SIZE])
        ensures
            bytes@ == self.encoding(),
    {
        let id = u16_to_be(self.id.id);
        let bytes = [self.prefix.to_byte(), id[0], id[1]];
        proof {
            lemma_be_bytes_len(self.id.id as nat, 2);
            assert(bytes@ =~= self.encoding());
        }
        bytes
    }

    /// Reads a key. Nothing for bytes of another length, and nothing for bytes
    /// in which a tag is not one of the tags.
    pub fn from_bytes(bytes: &[u8]) -> (r: Option<Type>)
        ensures
            r == Type::decoding(bytes@),
    {
        if bytes.len() != TYPE_SIZE {
            return None;
        }
        match Prefix::from_byte(bytes[0]) {
            Some(prefix) => {
                proof {
                    lemma_be_bytes_of_value(bytes@.subrange(1, 3));
                    lemma_fits_bound(be_value(bytes@.subrange(1, 3)), 2);
                }
                let id = u16_from_be(slice_subrange(bytes, 1, 3));
                Some(Type { prefix, id: TypeID { id } })
            },
            None => None,
        }
    }

    /// A key has its fixed length.
    pub proof fn lemma_encoding_len(self)
        ensures
            self.encoding().len() == TYPE_SIZE,
    {
        lemma_be_bytes_len(self.id.id as nat, 2);
    }

    /// Decoding undoes encoding.
    pub proof fn lemma_decoding_of_encoding(self)
        ensures
            Type::decoding(self.encoding()) == Some(self),
    {
        let bytes = self.encoding();
        lemma_be_bytes_len(self.id.id as nat, 2);
        assert(bytes.subrange(1, 3) =~= be_bytes(self.id.id as nat, 2));
        lemma_u16_fits(self.id.id);
        lemma_be_value_of_bytes(self.id.id as nat, 2);
    }

    /// Only the encoding of a type decodes to it.
    pub proof fn lemma_encoding_of_decoding(bytes: Seq<u8>)
        ensures
            Type::decoding(bytes) matches Some(t) ==> t.encoding() == bytes,
    {
        if let Some(t) = Type::decoding(bytes) {
            let id = bytes.subrange(1, 3);
            lemma_be_bytes_of_value(id);
            lemma_fits_bound(be_value(id), 2);
            assert(t.encoding() =~= bytes);
        }
    }
}

/// A 64-bit identifier of an instance, unique within its type by convention.
#[derive(Copy, Clone, Debug, PartialEq, Eq, Hash, Structural)]
pub struct ThingID {
    pub id: u64,
}

/// A concrete instance: a person, a relation instance and so on.
#[derive(Copy, Clone, Debug, PartialEq, Eq, Hash, Structural)]
pub struct Thing {
    pub type_: Type,
    pub thing_id: ThingID,
}

impl Thing {
    /// The type, then the instance identifier, most significant byte first.
    pub open spec fn encoding(self) -> Seq<u8> {
        self.type_.encoding() + be_bytes(self.thing_id.id as nat, 8)
    }

    /// The thing that `bytes` is the encoding of, if there is one.
    pub open spec fn decoding(bytes: Seq<u8>) -> Option<Thing> {
        if bytes.len() == THING_SIZE {
            match Type::decoding(bytes.subrange(0, 3)) {
                Some(type_) => Some(
                    Thing { type_, thing_id: ThingID { id: be_value(bytes.subrange(3, 11)) as u64 } },
                ),
                None => None,
            }
        } else {
            None
        }
    }

    /// The key: the bytes of the encoding.
    pub fn to_bytes(self) -> (bytes: [u8; THING_SIZE])
        ensures
            bytes@ == self.encoding(),
    {
        let mut bytes = [0u8; THING_SIZE];
        let type_ = self.type_.to_bytes();
        let id = u64_to_be(self.thing_id.id);
        write_at(&mut bytes, 0, &type_);
        write_at(&mut bytes, 3, &id);
        proof {
            self.type_.lemma_encoding_len();
            lemma_be_bytes_len(self.thing_id.id as nat, 8);
            assert(bytes@ =~= self.encoding());
        }
        bytes
    }

    /// Reads a key. Nothing for bytes of another length, and nothing for bytes
    /// in which a tag is not one of the tags.
    pub fn from_bytes(bytes: &[u8]) -> (r: Option<Thing>)
        ensures
            r == Thing::decoding(bytes@),
    {
        if bytes.len() != THING_SIZE {
            return None;
        }
        match Type::from_bytes(slice_subrange(bytes, 0, 3)) {
            Some(type_) => {
                proof {
                    lemma_be_bytes_of_value(bytes@.subrange(3, 11));
                    lemma_fits_bound(be_value(bytes@.subrange(3, 11)), 8);
                }
                let id = u64_from_be(slice_subrange(bytes, 3, 11));
                Some(Thing { type_, thing_id: ThingID { id } })
            },
            None => None,
        }
    }

    /// A key has its fixed length.
    pub proof fn lemma_encoding_len(self)
        ensures
            self.encoding().len() == THING_SIZE,
    {
        self.type_.lemma_encoding_len();
        lemma_be_bytes_len(self.thing_id.id as nat, 8);
    }

    /// Decoding undoes encoding.
    pub proof fn lemma_decoding_of_encoding(self)
        ensures
            Thing::decoding(self.encoding()) == Some(self),
    {
        let bytes = self.encoding();
        self.type_.lemma_encoding_len();
        lemma_be_bytes_len(self.thing_id.id as nat, 8);
        assert(bytes.subrange(0, 3) =~= self.type_.encoding());
        assert(bytes.subrange(3, 11) =~= be_bytes(self.thing_id.id as nat, 8));
        self.type_.lemma_decoding_of_encoding();
        lemma_u64_fits(self.thing_id.id);
        lemma_be_value_of_bytes(self.thing_id.id as nat, 8);
    }

    /// Only the encoding of a thing decodes to it.
    pub proof fn lemma_encoding_of_decoding(bytes: Seq<u8>)
        ensures
            Thing::decoding(bytes) matches Some(t) ==> t.encoding() == bytes,
    {
        if let Some(t) = Thing::decoding(bytes) {
            let id = bytes.subrange(3, 11);
            Type::lemma_encoding_of_decoding(bytes.subrange(0, 3));
            lemma_be_bytes_of_value(id);
            lemma_fits_bound(be_value(id), 8);
            assert(t.encoding() =~= bytes);
        }
    }
}

/// How the value of an attribute is represented.
#[derive(Copy, Clone, Debug, PartialEq, Eq, Hash, Structural)]
pub enum ValueType {
    Long,
}

impl ValueType {
    /// The byte that tags this representation in a key.
    pub open spec fn byte(self) -> u8 {
        match self {
            ValueType::Long => 0x01,
        }
    }

    /// The representation that `b` tags, if any.
    pub open spec fn of_byte(b: u8) -> Option<ValueType> {
        if b == 0x01 {
            Some(ValueType::Long)
        } else {
            None
        }
    }

    /// The tag byte, as it is written into a key.
    pub fn to_byte(self) -> (b: u8)
        ensures
            b == self.byte(),
    {
        match self {
            ValueType::Long => 0x01,
        }
    }

    /// Reads a tag byte. Nothing for a byte that is no tag.
    pub fn from_byte(b: u8) -> (r: Option<ValueType>)
        ensures
            r == ValueType::of_byte(b),
    {
        if b == 0x01 {
            Some(ValueType::Long)
        } else {
            None
        }
    }
}

/// The type of an attribute: a category, an identifier and a value type.
#[derive(Copy, Clone, Debug, PartialEq, Eq, Hash, Structural)]
pub struct AttributeType {
    pub prefix: Prefix,
    pub id: TypeID,
    pub value_type: ValueType,
}

impl AttributeType {
    /// The category tag, the identifier, then the value type tag.
    pub open spec fn encoding(self) -> Seq<u8> {
        seq![self.prefix.byte()] + be_bytes(self.id.id as nat, 2) + seq![self.value_type.byte()]
    }

    /// The attribute type that `bytes` is the encoding of, if there is one.
    pub open spec fn decoding(bytes: Seq<u8>) -> Option<AttributeType> {
        if bytes.len() == ATTRIBUTE_TYPE_SIZE {
            match (Prefix::of_byte(bytes[0]), ValueType::of_byte(bytes[3])) {
                (Some(prefix), Some(value_type)) => Some(
                    AttributeType {
                        prefix,
                        id: TypeID { id: be_value(bytes.subrange(1, 3)) as u16 },
                        value_type,
                    },
                ),
                _ => None,
            }
        } else {
            None
        }
    }

    /// The key: the bytes of the encoding.
    pub fn to_bytes(self) -> (bytes: [u8; ATTRIBUTE_TYPE_SIZE])
        ensures
            bytes@ == self.encoding(),
    {
        let id = u16_to_be(self.id.id);
        let bytes = [self.prefix.to_byte(), id[0], id[1], self.value_type.to_byte()];
        proof {
            lemma_be_bytes_len(self.id.id as nat, 2);
            assert(bytes@ =~= self.encoding());
        }
        bytes
    }

    /// Reads a key. Nothing for bytes of another length, and nothing for bytes
    /// in which a tag is not one of the tags.
    pub fn from_bytes(bytes: &[u8]) -> (r: Option<AttributeType>)
        ensures
            r == AttributeType::decoding(bytes@),
    {
        if bytes.len() != ATTRIBUTE_TYPE_SIZE {
            return None;
        }
        match (Prefix::from_byte(bytes[0]), ValueType::from_byte(bytes[3])) {
            (Some(prefix), Some(value_type)) => {
                proof {
                    lemma_be_bytes_of_value(bytes@.subrange(1, 3));
                    lemma_fits_bound(be_value(bytes@.subrange(1, 3)), 2);
                }
                let id = u16_from_be(slice_subrange(bytes, 1, 3));
                Some(AttributeType { prefix, id: TypeID { id }, value_type })
            },
            _ => None,
        }
    }

    /// A key has its fixed length.
    pub proof fn lemma_encoding_len(self)
        ensures
            self.encoding().len() == ATTRIBUTE_TYPE_SIZE,
    {
        lemma_be_bytes_len(self.id.id as nat, 2);
    }

    /// Decoding undoes encoding.
    pub proof fn lemma_decoding_of_encoding(self)
        ensures
            AttributeType::decoding(self.encoding()) == Some(self),
    {
        let bytes = self.encoding();
        lemma_be_bytes_len(self.id.id as nat, 2);
        assert(bytes.subrange(1, 3) =~= be_bytes(self.id.id as nat, 2));
        lemma_u16_fits(self.id.id);
        lemma_be_value_of_bytes(self.id.id as nat, 2);
    }

    /// Only the encoding of an attribute type decodes to it.
    pub proof fn lemma_encoding_of_decoding(bytes: Seq<u8>)
        ensures
            AttributeType::decoding(bytes) matches Some(t) ==> t.encoding() == bytes,
    {
        if let Some(t) = AttributeType::decoding(bytes) {
            let id = bytes.subrange(1, 3);
            lemma_be_bytes_of_value(id);
            lemma_fits_bound(be_value(id), 2);
            assert(t.encoding() =~= bytes);
        }
    }
}

/// A concrete attribute value. The value is its identity: there is no
/// separate instance identifier.
#[derive(Copy, Clone, Debug, PartialEq, Eq, Hash, Structural)]
pub struct Attribute {
    pub type_: AttributeType,
    pub value: u64,
}

impl Attribute {
    /// The attribute type, then the value, most significant byte first.
    pub open spec fn encoding(self) -> Seq<u8> {
        self.type_.encoding() + be_bytes(self.value as nat, 8)
    }

    /// The attribute that `bytes` is the encoding of, if there is one.
    pub open spec fn decoding(bytes: Seq<u8>) -> Option<Attribute> {
        if bytes.len() == ATTRIBUTE_SIZE {
            match AttributeType::decoding(bytes.subrange(0, 4)) {
                Some(type_) => Some(
                    Attribute { type_, value: be_value(bytes.subrange(4, 12)) as u64 },
                ),
                None => None,
            }
        } else {
            None
        }
    }

    /// The key: the bytes of the encoding.
    pub fn as_bytes(&self) -> (bytes: [u8; ATTRIBUTE_SIZE])
        ensures
            bytes@ == self.encoding(),
    {
        let mut bytes = [0u8; ATTRIBUTE_SIZE];
        let type_ = self.type_.to_bytes();
        let value = u64_to_be(self.value);
        write_at(&mut bytes, 0, &type_);
        write_at(&mut bytes, 4, &value);
        proof {
            self.type_.lemma_encoding_len();
            lemma_be_bytes_len(self.value as nat, 8);
            assert(bytes@ =~= self.encoding());
        }
        bytes
    }

    /// Reads a key. Nothing for bytes of another length, and nothing for bytes
    /// in which a tag is not one of the tags.
    pub fn from_bytes(bytes: &[u8]) -> (r: Option<Attribute>)
        ensures
            r == Attribute::decoding(bytes@),
    {
        if bytes.len() != ATTRIBUTE_SIZE {
            return None;
        }
        match AttributeType::from_bytes(slice_subrange(bytes, 0, 4)) {
            Some(type_) => {
                proof {
                    lemma_be_bytes_of_value(bytes@.subrange(4, 12));
                    lemma_fits_bound(be_value(bytes@.subrange(4, 12)), 8);
                }
                let value = u64_from_be(slice_subrange(bytes, 4, 12));
                Some(Attribute { type_, value })
            },
            None => None,
        }
    }

    /// A key has its fixed length.
    pub proof fn lemma_encoding_len(self)
        ensures
            self.encoding().len() == ATTRIBUTE_SIZE,
    {
        self.type_.lemma_encoding_len();
        lemma_be_bytes_len(self.value as nat, 8);
    }

    /// Decoding undoes encoding.
    pub proof fn lemma_decoding_of_encoding(self)
        ensures
            Attribute::decoding(self.encoding()) == Some(self),
    {
        let bytes = self.encoding();
        self.type_.lemma_encoding_len();
        lemma_be_bytes_len(self.value as nat, 8);
        assert(bytes.subrange(0, 4) =~= self.type_.encoding());
        assert(bytes.subrange(4, 12) =~= be_bytes(self.value as nat, 8));
        self.type_.lemma_decoding_of_encoding();
        lemma_u64_fits(self.value);
        lemma_be_value_of_bytes(self.value as nat, 8);
    }

    /// Only the encoding of an attribute decodes to it.
    pub proof fn lemma_encoding_of_decoding(bytes: Seq<u8>)
        ensures
            Attribute::decoding(bytes) matches Some(a) ==> a.encoding() == bytes,
    {
        if let Some(a) = Attribute::decoding(bytes) {
            let value = bytes.subrange(4, 12);
            AttributeType::lemma_encoding_of_decoding(bytes.subrange(0, 4));
            lemma_be_bytes_of_value(value);
            lemma_fits_bound(be_value(value), 8);
            assert(a.encoding() =~= bytes);
        }
    }
}

/// Bytes in either key of a [`HasEdge`].
pub const HAS_EDGE_SIZE: usize = 24;

/// Bytes in either key of a [`RelatesEdge`].
pub const RELATES_EDGE_SIZE: usize = 26;

/// Bytes in the key of a [`RelationSiblingEdge`].
pub const SIBLING_EDGE_SIZE: usize = 40;

/// The kinds of edges. The tag of the kind follows the first endpoint in
/// every edge key, so that a scan from that endpoint finds one kind only.
#[derive(Copy, Clone, Debug, PartialEq, Eq, Hash, Structural)]
pub enum EdgeType {
    Has,
    Sibling,
    Relates,
}

impl EdgeType {
    /// The byte that tags this kind of edge in a key.
    pub open spec fn byte(self) -> u8 {
        match self {
            EdgeType::Has => 0x55,
            EdgeType::Sibling => 0x5A,
            EdgeType::Relates => 0xAA,
        }
    }

    /// The tag byte, as it is written into a key.
    pub fn to_byte(self) -> (b: u8)
        ensures
            b == self.byte(),
    {
        match self {
            EdgeType::Has => 0x55,
            EdgeType::Sibling => 0x5A,
            EdgeType::Relates => 0xAA,
        }
    }
}

/// An ownership edge: `owner` has the attribute `attr`.
#[derive(Copy, Clone, Debug, PartialEq, Eq, Hash, Structural)]
pub struct HasEdge {
    pub owner: Thing,
    pub attr: Attribute,
}

impl HasEdge {
    /// Owner, tag, attribute: the key under which the attributes of a thing
    /// are found.
    pub open spec fn forward_encoding(self) -> Seq<u8> {
        self.owner.encoding() + seq![EdgeType::Has.byte()] + self.attr.encoding()
    }

    /// Attribute, tag, owner: the key under which the owners of an attribute
    /// are found.
    pub open spec fn backward_encoding(self) -> Seq<u8> {
        self.attr.encoding() + seq![EdgeType::Has.byte()] + self.owner.encoding()
    }

    /// The edge that `bytes` is the forward key of, if there is one.
    pub open spec fn forward_decoding(bytes: Seq<u8>) -> Option<HasEdge> {
        if bytes.len() == HAS_EDGE_SIZE && bytes[11] == EdgeType::Has.byte() {
            match (Thing::decoding(bytes.subrange(0, 11)), Attribute::decoding(bytes.subrange(12, 24))) {
                (Some(owner), Some(attr)) => Some(HasEdge { owner, attr }),
                _ => None,
            }
        } else {
            None
        }
    }

    /// The edge that `bytes` is the backward key of, if there is one.
    pub open spec fn backward_decoding(bytes: Seq<u8>) -> Option<HasEdge> {
        if bytes.len() == HAS_EDGE_SIZE && bytes[12] == EdgeType::Has.byte() {
            match (Attribute::decoding(bytes.subrange(0, 12)), Thing::decoding(bytes.subrange(13, 24))) {
                (Some(attr), Some(owner)) => Some(HasEdge { owner, attr }),
                _ => None,
            }
        } else {
            None
        }
    }

    /// The forward key.
    pub fn to_forward_bytes(self) -> (bytes: [u8; HAS_EDGE_SIZE])
        ensures
            bytes@ == self.forward_encoding(),
    {
        let mut bytes = [0u8; HAS_EDGE_SIZE];
        let owner = self.owner.to_bytes();
        let attr = self.attr.as_bytes();
        write_at(&mut bytes, 0, &owner);
        bytes[11] = EdgeType::Has.to_byte();
        write_at(&mut bytes, 12, &attr);
        proof {
            self.owner.lemma_encoding_len();
            self.attr.lemma_encoding_len();
            assert(bytes@ =~= self.forward_encoding());
        }
        bytes
    }

    /// Bytes in a forward key.
    pub fn forward_encoding_size() -> (n: usize)
        ensures
            n == HAS_EDGE_SIZE,
    {
        HAS_EDGE_SIZE
    }

    /// Reads a forward key. Nothing for bytes that are not the forward key of
    /// an edge of this kind.
    pub fn from_bytes_forward(bytes: &[u8]) -> (r: Option<HasEdge>)
        ensures
            r == HasEdge::forward_decoding(bytes@),
    {
        if bytes.len() != HAS_EDGE_SIZE || bytes[11] != EdgeType::Has.to_byte() {
            return None;
        }
        let owner = Thing::from_bytes(slice_subrange(bytes, 0, 11));
        let attr = Attribute::from_bytes(slice_subrange(bytes, 12, 24));
        match (owner, attr) {
            (Some(owner), Some(attr)) => Some(HasEdge { owner, attr }),
            _ => None,
        }
    }

    /// The backward key.
    pub fn to_backward_bytes(self) -> (bytes: [u8; HAS_EDGE_SIZE])
        ensures
            bytes@ == self.backward_encoding(),
    {
        let mut bytes = [0u8; HAS_EDGE_SIZE];
        let owner = self.owner.to_bytes();
        let attr = self.attr.as_bytes();
        write_at(&mut bytes, 0, &attr);
        bytes[12] = EdgeType::Has.to_byte();
        write_at(&mut bytes, 13, &owner);
        proof {
            self.owner.lemma_encoding_len();
            self.attr.lemma_encoding_len();
            assert(bytes@ =~= self.backward_encoding());
        }
        bytes
    }

    /// Bytes in a backward key.
    pub fn backward_encoding_size() -> (n: usize)
        ensures
            n == HAS_EDGE_SIZE,
    {
        HAS_EDGE_SIZE
    }

    /// Reads a backward key. Nothing for bytes that are not the backward key
    /// of an edge of this kind.
    pub fn from_bytes_backward(bytes: &[u8]) -> (r: Option<HasEdge>)
        ensures
            r == HasEdge::backward_decoding(bytes@),
    {
        if bytes.len() != HAS_EDGE_SIZE || bytes[12] != EdgeType::Has.to_byte() {
            return None;
        }
        let attr = Attribute::from_bytes(slice_subrange(bytes, 0, 12));
        let owner = Thing::from_bytes(slice_subrange(bytes, 13, 24));
        match (attr, owner) {
            (Some(attr), Some(owner)) => Some(HasEdge { owner, attr }),
            _ => None,
        }
    }

    /// A key has its fixed length.
    pub proof fn lemma_encoding_len(self)
        ensures
            self.forward_encoding().len() == HAS_EDGE_SIZE,
            self.backward_encoding().len() == HAS_EDGE_SIZE,
    {
        self.owner.lemma_encoding_len();
        self.attr.lemma_encoding_len();
    }

    /// Decoding undoes encoding, in both layouts.
    pub proof fn lemma_decoding_of_encoding(self)
        ensures
            HasEdge::forward_decoding(self.forward_encoding()) == Some(self),
            HasEdge::backward_decoding(self.backward_encoding()) == Some(self),
    {
        self.owner.lemma_encoding_len();
        self.attr.lemma_encoding_len();
        self.owner.lemma_decoding_of_encoding();
        self.attr.lemma_decoding_of_encoding();
        let forward = self.forward_encoding();
        assert(forward.subrange(0, 11) =~= self.owner.encoding());
        assert(forward.subrange(12, 24) =~= self.attr.encoding());
        let backward = self.backward_encoding();
        assert(backward.subrange(0, 12) =~= self.attr.encoding());
        assert(backward.subrange(13, 24) =~= self.owner.encoding());
    }

    /// Only the keys of an edge decode to it.
    pub proof fn lemma_encoding_of_decoding(bytes: Seq<u8>)
        ensures
            HasEdge::forward_decoding(bytes) matches Some(e) ==> e.forward_encoding() == bytes,
            HasEdge::backward_decoding(bytes) matches Some(e) ==> e.backward_encoding() == bytes,
    {
        if let Some(e) = HasEdge::forward_decoding(bytes) {
            Thing::lemma_encoding_of_decoding(bytes.subrange(0, 11));
            Attribute::lemma_encoding_of_decoding(bytes.subrange(12, 24));
            assert(e.forward_encoding() =~= bytes);
        }
        if let Some(e) = HasEdge::backward_decoding(bytes) {
            Attribute::lemma_encoding_of_decoding(bytes.subrange(0, 12));
            Thing::lemma_encoding_of_decoding(bytes.subrange(13, 24));
            assert(e.backward_encoding() =~= bytes);
        }
    }

    /// The backward key holds the fields of the forward key with the two
    /// endpoints exchanged: the attribute comes first, the owner last, and the
    /// tag stays between them.
    pub proof fn lemma_backward_swaps_endpoints(self)
        ensures
            self.backward_encoding().subrange(0, 12) == self.forward_encoding().subrange(12, 24),
            self.backward_encoding()[12] == self.forward_encoding()[11],
            self.backward_encoding().subrange(13, 24) == self.forward_encoding().subrange(0, 11),
            self.forward_encoding().subrange(0, 11) == self.owner.encoding(),
            self.forward_encoding()[11] == EdgeType::Has.byte(),
            self.forward_encoding().subrange(12, 24) == self.attr.encoding(),
    {
        self.owner.lemma_encoding_len();
        self.attr.lemma_encoding_len();
        let forward = self.forward_encoding();
        let backward = self.backward_encoding();
        assert(forward.subrange(0, 11) =~= self.owner.encoding());
        assert(forward.subrange(12, 24) =~= self.attr.encoding());
        assert(backward.subrange(0, 12) =~= self.attr.encoding());
        assert(backward.subrange(13, 24) =~= self.owner.encoding());
    }
}

/// A role-player edge: `player` plays the role `role_type` in `rel`.
#[derive(Copy, Clone, Debug, PartialEq, Eq, Hash, Structural)]
pub struct RelatesEdge {
    pub rel: Thing,
    pub role_type: Type,
    pub player: Thing,
}

impl RelatesEdge {
    /// The same role with the two endpoints exchanged.
    pub open spec fn swapped(self) -> RelatesEdge {
        RelatesEdge { rel: self.player, role_type: self.role_type, player: self.rel }
    }

    /// Relation, tag, role, player: the key under which the players of a
    /// relation are found.
    pub open spec fn forward_encoding(self) -> Seq<u8> {
        self.rel.encoding() + seq![EdgeType::Relates.byte()] + self.role_type.encoding()
            + self.player.encoding()
    }

    /// Player, tag, role, relation: the key under which the relations of a
    /// player are found.
    pub open spec fn backward_encoding(self) -> Seq<u8> {
        self.player.encoding() + seq![EdgeType::Relates.byte()] + self.role_type.encoding()
            + self.rel.encoding()
    }

    /// The edge that `bytes` is the forward key of, if there is one.
    pub open spec fn forward_decoding(bytes: Seq<u8>) -> Option<RelatesEdge> {
        if bytes.len() == RELATES_EDGE_SIZE && bytes[11] == EdgeType::Relates.byte() {
            match (
                Thing::decoding(bytes.subrange(0, 11)),
                Type::decoding(bytes.subrange(12, 15)),
                Thing::decoding(bytes.subrange(15, 26)),
            ) {
                (Some(rel), Some(role_type), Some(player)) => Some(
                    RelatesEdge { rel, role_type, player },
                ),
                _ => None,
            }
        } else {
            None
        }
    }

    /// The edge that `bytes` is the backward key of, if there is one.
    pub open spec fn backward_decoding(bytes: Seq<u8>) -> Option<RelatesEdge> {
        match RelatesEdge::forward_decoding(bytes) {
            Some(e) => Some(e.swapped()),
            None => None,
        }
    }

    /// The forward key.
    pub fn to_forward_bytes(self) -> (bytes: [u8; RELATES_EDGE_SIZE])
        ensures
            bytes@ == self.forward_encoding(),
    {
        let mut bytes = [0u8; RELATES_EDGE_SIZE];
        let rel = self.rel.to_bytes();
        let role_type = self.role_type.to_bytes();
        let player = self.player.to_bytes();
        write_at(&mut bytes, 0, &rel);
        bytes[11] = EdgeType::Relates.to_byte();
        write_at(&mut bytes, 12, &role_type);
        write_at(&mut bytes, 15, &player);
        proof {
            self.rel.lemma_encoding_len();
            self.role_type.lemma_encoding_len();
            self.player.lemma_encoding_len();
            assert(bytes@ =~= self.forward_encoding());
        }
        bytes
    }

    /// The backward key.
    pub fn to_backward_bytes(self) -> (bytes: [u8; RELATES_EDGE_SIZE])
        ensures
            bytes@ == self.backward_encoding(),
    {
        let RelatesEdge { rel, role_type, player } = self;
        RelatesEdge { rel: player, role_type, player: rel }.to_forward_bytes()
    }

    /// Reads a forward key. Nothing for bytes that are not the forward key of
    /// an edge of this kind.
    pub fn from_bytes_forward(bytes: &[u8]) -> (r: Option<RelatesEdge>)
        ensures
            r == RelatesEdge::forward_decoding(bytes@),
    {
        if bytes.len() != RELATES_EDGE_SIZE || bytes[11] != EdgeType::Relates.to_byte() {
            return None;
        }
        let rel = Thing::from_bytes(slice_subrange(bytes, 0, 11));
        let role_type = Type::from_bytes(slice_subrange(bytes, 12, 15));
        let player = Thing::from_bytes(slice_subrange(bytes, 15, 26));
        match (rel, role_type, player) {
            (Some(rel), Some(role_type), Some(player)) => Some(
                RelatesEdge { rel, role_type, player },
            ),
            _ => None,
        }
    }

    /// Reads a backward key. Nothing for bytes that are not the backward key
    /// of an edge of this kind.
    pub fn from_bytes_backward(bytes: &[u8]) -> (r: Option<RelatesEdge>)
        ensures
            r == RelatesEdge::backward_decoding(bytes@),
    {
        match RelatesEdge::from_bytes_forward(bytes) {
            Some(RelatesEdge { rel, role_type, player }) => Some(
                RelatesEdge { rel: player, role_type, player: rel },
            ),
            None => None,
        }
    }

    /// A key has its fixed length.
    pub proof fn lemma_encoding_len(self)
        ensures
            self.forward_encoding().len() == RELATES_EDGE_SIZE,
            self.backward_encoding().len() == RELATES_EDGE_SIZE,
    {
        self.rel.lemma_encoding_len();
        self.role_type.lemma_encoding_len();
        self.player.lemma_encoding_len();
    }

    /// The backward key of an edge is the forward key of the edge with its
    /// two endpoints exchanged, field for field.
    pub proof fn lemma_backward_swaps_endpoints(self)
        ensures
            self.backward_encoding() == self.swapped().forward_encoding(),
            self.forward_encoding() == self.swapped().backward_encoding(),
            self.swapped().swapped() == self,
    {
    }

    /// Decoding undoes encoding, in both layouts.
    pub proof fn lemma_decoding_of_encoding(self)
        ensures
            RelatesEdge::forward_decoding(self.forward_encoding()) == Some(self),
            RelatesEdge::backward_decoding(self.backward_encoding()) == Some(self),
    {
        self.lemma_forward_roundtrip();
        self.swapped().lemma_forward_roundtrip();
    }

    proof fn lemma_forward_roundtrip(self)
        ensures
            RelatesEdge::forward_decoding(self.forward_encoding()) == Some(self),
    {
        self.rel.lemma_encoding_len();
        self.role_type.lemma_encoding_len();
        self.player.lemma_encoding_len();
        self.rel.lemma_decoding_of_encoding();
        self.role_type.lemma_decoding_of_encoding();
        self.player.lemma_decoding_of_encoding();
        let forward = self.forward_encoding();
        assert(forward.subrange(0, 11) =~= self.rel.encoding());
        assert(forward.subrange(12, 15) =~= self.role_type.encoding());
        assert(forward.subrange(15, 26) =~= self.player.encoding());
    }

    /// Only the keys of an edge decode to it.
    pub proof fn lemma_encoding_of_decoding(bytes: Seq<u8>)
        ensures
            RelatesEdge::forward_decoding(bytes) matches Some(e) ==> e.forward_encoding() == bytes,
            RelatesEdge::backward_decoding(bytes) matches Some(e) ==> e.backward_encoding()
                == bytes,
    {
        if let Some(e) = RelatesEdge::forward_decoding(bytes) {
            Thing::lemma_encoding_of_decoding(bytes.subrange(0, 11));
            Type::lemma_encoding_of_decoding(bytes.subrange(12, 15));
            Thing::lemma_encoding_of_decoding(bytes.subrange(15, 26));
            assert(e.forward_encoding() =~= bytes);
        }
    }
}

/// A sibling shortcut edge: two players of one relation, each with its
/// role, so that a query can go from one player to the other without
/// visiting the relation.
#[derive(Copy, Clone, Debug, PartialEq, Eq, Hash, Structural)]
pub struct RelationSiblingEdge {
    pub lhs_player: Thing,
    pub lhs_role_type: Type,
    pub rel: Thing,
    pub rhs_role_type: Type,
    pub rhs_player: Thing,
}

impl RelationSiblingEdge {
    /// The same shortcut seen from the other player.
    pub open spec fn mirrored(self) -> RelationSiblingEdge {
        RelationSiblingEdge {
            lhs_player: self.rhs_player,
            lhs_role_type: self.rhs_role_type,
            rel: self.rel,
            rhs_role_type: self.lhs_role_type,
            rhs_player: self.lhs_player,
        }
    }

    /// Left player, tag, left role, relation, right role, right player.
    pub open spec fn forward_encoding(self) -> Seq<u8> {
        self.lhs_player.encoding() + seq![EdgeType::Sibling.byte()] + self.lhs_role_type.encoding()
            + self.rel.encoding() + self.rhs_role_type.encoding() + self.rhs_player.encoding()
    }

    /// The forward layout with left and right exchanged.
    pub open spec fn backward_encoding(self) -> Seq<u8> {
        self.rhs_player.encoding() + seq![EdgeType::Sibling.byte()] + self.rhs_role_type.encoding()
            + self.rel.encoding() + self.lhs_role_type.encoding() + self.lhs_player.encoding()
    }

    /// The edge that `bytes` is the forward key of, if there is one.
    pub open spec fn decoding(bytes: Seq<u8>) -> Option<RelationSiblingEdge> {
        if bytes.len() == SIBLING_EDGE_SIZE && bytes[11] == EdgeType::Sibling.byte() {
            match (
                Thing::decoding(bytes.subrange(0, 11)),
                Type::decoding(bytes.subrange(12, 15)),
                Thing::decoding(bytes.subrange(15, 26)),
                Type::decoding(bytes.subrange(26, 29)),
                Thing::decoding(bytes.subrange(29, 40)),
            ) {
                (
                    Some(lhs_player),
                    Some(lhs_role_type),
                    Some(rel),
                    Some(rhs_role_type),
                    Some(rhs_player),
                ) => Some(
                    RelationSiblingEdge { lhs_player, lhs_role_type, rel, rhs_role_type, rhs_player },
                ),
                _ => None,
            }
        } else {
            None
        }
    }

    /// The forward key.
    pub fn to_forward_bytes(self) -> (bytes: [u8; SIBLING_EDGE_SIZE])
        ensures
            bytes@ == self.forward_encoding(),
    {
        let mut bytes = [0u8; SIBLING_EDGE_SIZE];
        let lhs_player = self.lhs_player.to_bytes();
        let lhs_role_type = self.lhs_role_type.to_bytes();
        let rel = self.rel.to_bytes();
        let rhs_role_type = self.rhs_role_type.to_bytes();
        let rhs_player = self.rhs_player.to_bytes();
        write_at(&mut bytes, 0, &lhs_player);
        bytes[11] = EdgeType::Sibling.to_byte();
        write_at(&mut bytes, 12, &lhs_role_type);
        write_at(&mut bytes, 15, &rel);
        write_at(&mut bytes, 26, &rhs_role_type);
        write_at(&mut bytes, 29, &rhs_player);
        proof {
            self.lhs_player.lemma_encoding_len();
            self.lhs_role_type.lemma_encoding_len();
            self.rel.lemma_encoding_len();
            self.rhs_role_type.lemma_encoding_len();
            self.rhs_player.lemma_encoding_len();
            assert(bytes@ =~= self.forward_encoding());
        }
        bytes
    }

    /// The backward key.
    pub fn to_backward_bytes(self) -> (bytes: [u8; SIBLING_EDGE_SIZE])
        ensures
            bytes@ == self.backward_encoding(),
    {
        let RelationSiblingEdge { lhs_player, lhs_role_type, rel, rhs_role_type, rhs_player } = self;
        RelationSiblingEdge {
            lhs_player: rhs_player,
            lhs_role_type: rhs_role_type,
            rel,
            rhs_role_type: lhs_role_type,
            rhs_player: lhs_player,
        }.to_forward_bytes()
    }

    /// Bytes in a key.
    pub fn encoding_size() -> (n: usize)
        ensures
            n == SIBLING_EDGE_SIZE,
    {
        SIBLING_EDGE_SIZE
    }

    /// Reads a key. Nothing for bytes of another length, and nothing for bytes
    /// in which a tag is not one of the tags.
    pub fn from_bytes(bytes: &[u8]) -> (r: Option<RelationSiblingEdge>)
        ensures
            r == RelationSiblingEdge::decoding(bytes@),
    {
        if bytes.len() != SIBLING_EDGE_SIZE || bytes[11] != EdgeType::Sibling.to_byte() {
            return None;
        }
        let lhs_player = Thing::from_bytes(slice_subrange(bytes, 0, 11));
        let lhs_role_type = Type::from_bytes(slice_subrange(bytes, 12, 15));
        let rel = Thing::from_bytes(slice_subrange(bytes, 15, 26));
        let rhs_role_type = Type::from_bytes(slice_subrange(bytes, 26, 29));
        let rhs_player = Thing::from_bytes(slice_subrange(bytes, 29, 40));
        match (lhs_player, lhs_role_type, rel, rhs_role_type, rhs_player) {
            (
                Some(lhs_player),
                Some(lhs_role_type),
                Some(rel),
                Some(rhs_role_type),
                Some(rhs_player),
            ) => Some(
                RelationSiblingEdge { lhs_player, lhs_role_type, rel, rhs_role_type, rhs_player },
            ),
            _ => None,
        }
    }

    /// A key has its fixed length.
    pub proof fn lemma_encoding_len(self)
        ensures
            self.forward_encoding().len() == SIBLING_EDGE_SIZE,
            self.backward_encoding().len() == SIBLING_EDGE_SIZE,
    {
        self.lhs_player.lemma_encoding_len();
        self.lhs_role_type.lemma_encoding_len();
        self.rel.lemma_encoding_len();
        self.rhs_role_type.lemma_encoding_len();
        self.rhs_player.lemma_encoding_len();
    }

    /// The backward key of a shortcut is the forward key of its mirror
    /// image: the two players, each with its role, change places.
    pub proof fn lemma_backward_swaps_endpoints(self)
        ensures
            self.backward_encoding() == self.mirrored().forward_encoding(),
            self.forward_encoding() == self.mirrored().backward_encoding(),
            self.mirrored().mirrored() == self,
    {
    }

    /// Decoding undoes encoding; the backward key decodes to the mirror
    /// image.
    pub proof fn lemma_decoding_of_encoding(self)
        ensures
            RelationSiblingEdge::decoding(self.forward_encoding()) == Some(self),
            RelationSiblingEdge::decoding(self.backward_encoding()) == Some(self.mirrored()),
    {
        self.lemma_forward_roundtrip();
        self.mirrored().lemma_forward_roundtrip();
    }

    proof fn lemma_forward_roundtrip(self)
        ensures
            RelationSiblingEdge::decoding(self.forward_encoding()) == Some(self),
    {
        self.lhs_player.lemma_encoding_len();
        self.lhs_role_type.lemma_encoding_len();
        self.rel.lemma_encoding_len();
        self.rhs_role_type.lemma_encoding_len();
        self.rhs_player.lemma_encoding_len();
        self.lhs_player.lemma_decoding_of_encoding();
        self.lhs_role_type.lemma_decoding_of_encoding();
        self.rel.lemma_decoding_of_encoding();
        self.rhs_role_type.lemma_decoding_of_encoding();
        self.rhs_player.lemma_decoding_of_encoding();
        let forward = self.forward_encoding();
        assert(forward.subrange(0, 11) =~= self.lhs_player.encoding());
        assert(forward.subrange(12, 15) =~= self.lhs_role_type.encoding());
        assert(forward.subrange(15, 26) =~= self.rel.encoding());
        assert(forward.subrange(26, 29) =~= self.rhs_role_type.encoding());
        assert(forward.subrange(29, 40) =~= self.rhs_player.encoding());
    }

    /// Only the forward key of a shortcut decodes to it.
    pub proof fn lemma_encoding_of_decoding(bytes: Seq<u8>)
        ensures
            RelationSiblingEdge::decoding(bytes) matches Some(e) ==> e.forward_encoding() == bytes,
    {
        if let Some(e) = RelationSiblingEdge::decoding(bytes) {
            Thing::lemma_encoding_of_decoding(bytes.subrange(0, 11));
            Type::lemma_encoding_of_decoding(bytes.subrange(12, 15));
            Thing::lemma_encoding_of_decoding(bytes.subrange(15, 26));
            Type::lemma_encoding_of_decoding(bytes.subrange(26, 29));
            Thing::lemma_encoding_of_decoding(bytes.subrange(29, 40));
            assert(e.forward_encoding() =~= bytes);
        }
    }
}

} // verus!
