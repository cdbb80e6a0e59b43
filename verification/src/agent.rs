//! The workload that drives the backend: people with names, and friendships
//! between them.
//!
//! The functions here decide which keys a step of the workload writes. The
//! lookups that a step rests on are made by the caller, against the store, and
//! handed in.

use crate::concept::{Attribute, AttributeType, Prefix, Thing, ThingID, Type, TypeID, ValueType};
use crate::random::{pick, random_u64};
use crate::storage::{
    attribute_puts, entity_puts, ownership_puts, relation_puts, RecordKind, WriteHandle,
};
use vstd::prelude::*;

verus! {

/// The type of a person.
#[verifier::allow_in_spec]
pub fn person_type() -> Type
    returns
        (Type { prefix: Prefix::Entity, id: TypeID { id: 0 } }),
{
    Type { prefix: Prefix::Entity, id: TypeID { id: 0 } }
}

/// The type of a friendship between two people.
#[verifier::allow_in_spec]
pub fn friendship_type() -> Type
    returns
        (Type { prefix: Prefix::Relation, id: TypeID { id: 0 } }),
{
    Type { prefix: Prefix::Relation, id: TypeID { id: 0 } }
}

/// The role that each of the two plays in a friendship.
#[verifier::allow_in_spec]
pub fn friend_role() -> Type
    returns
        (Type { prefix: Prefix::Role, id: TypeID { id: 0 } }),
{
    Type { prefix: Prefix::Role, id: TypeID { id: 0 } }
}

/// The type of the name of a person.
#[verifier::allow_in_spec]
pub fn name_type() -> AttributeType
    returns
        (AttributeType {
            prefix: Prefix::Attribute,
            id: TypeID { id: 0 },
            value_type: ValueType::Long,
        }),
{
    AttributeType { prefix: Prefix::Attribute, id: TypeID { id: 0 }, value_type: ValueType::Long }
}

/// How many friendships with siblings of well-known people a new person
/// tries to make.
pub const RANDOM_FRIENDSHIPS: usize = 5;

/// The keys that register `person` under `name`: the name, the person, and
/// the fact that the person has the name.
pub open spec fn person_puts(person: Thing, name: Attribute) -> Seq<(RecordKind, Seq<u8>)> {
    attribute_puts(name) + entity_puts(person) + ownership_puts(person, name)
}

/// The friendship with the identifier `id` between `popular` and `person`.
pub open spec fn friendship_puts(id: u64, popular: Thing, person: Thing) -> Seq<
    (RecordKind, Seq<u8>),
> {
    relation_puts(
        Thing { type_: friendship_type(), thing_id: ThingID { id } },
        seq![(friend_role(), popular), (friend_role(), person)],
    )
}

/// Registers the person with the identifier `id` under `name`.
pub fn register_person_as(writer: &mut WriteHandle, name: Attribute, id: u64) -> (person: Thing)
    ensures
        person == (Thing { type_: person_type(), thing_id: ThingID { id } }),
        final(writer)@ == old(writer)@ + person_puts(person, name),
{
    writer.put_attribute(name);
    let person = Thing { type_: person_type(), thing_id: ThingID { id } };
    writer.put_entity(person);
    writer.put_ownership(person, name);
    assert(writer@ =~= old(writer)@ + person_puts(person, name));
    person
}

/// Registers a new person under `name`. The identifier of the person is
/// drawn at random; that two people get the same one is taken to be unlikely.
pub fn register_person(writer: &mut WriteHandle, name: Attribute) -> (person: Thing)
    ensures
        person.type_ == person_type(),
        final(writer)@ == old(writer)@ + person_puts(person, name),
{
    register_person_as(writer, name, random_u64())
}

/// Makes `popular` and `person` friends, in the friendship with the
/// identifier `id`.
pub fn make_friendship_as(writer: &mut WriteHandle, id: u64, popular: Thing, person: Thing)
    ensures
        final(writer)@ == old(writer)@ + friendship_puts(id, popular, person),
{
    let rel = Thing { type_: friendship_type(), thing_id: ThingID { id } };
    let mut players: Vec<(Type, Thing)> = Vec::new();
    players.push((friend_role(), popular));
    players.push((friend_role(), person));
    assert(players@ =~= seq![(friend_role(), popular), (friend_role(), person)]);
    writer.put_relation(rel, players);
}

/// One of the well-known names, picked at random. Nothing where there are
/// none.
pub fn pick_supernode(supernodes: &Vec<Attribute>) -> (name: Option<Attribute>)
    ensures
        match name {
            Some(name) => supernodes@.contains(name),
            None => supernodes@.len() == 0,
        },
{
    pick(supernodes.as_slice())
}

/// Makes `person` a friend of `popular`, the owner of a well-known name,
/// where the lookup of the owner found one. The identifier of the friendship is
/// drawn at random.
pub fn make_supernode_friendships(
    writer: &mut WriteHandle,
    person: Thing,
    popular: Option<Thing>,
)
    ensures
        match popular {
            Some(popular) => exists|id: u64|
                final(writer)@ == old(writer)@ + #[trigger] friendship_puts(id, popular, person),
            None => final(writer)@ == old(writer)@,
        },
{
    if let Some(popular) = popular {
        let id = random_u64();
        make_friendship_as(writer, id, popular, person);
    }
}

/// The friendships that `ids` make between `person` and those of `randos`
/// that were found, in their order.
pub open spec fn random_friendship_puts(
    ids: Seq<u64>,
    randos: Seq<Option<Thing>>,
    person: Thing,
) -> Seq<(RecordKind, Seq<u8>)>
    decreases randos.len(),
{
    if randos.len() == 0 {
        Seq::empty()
    } else {
        let before = random_friendship_puts(ids.drop_last(), randos.drop_last(), person);
        match randos.last() {
            Some(rando) => before + friendship_puts(ids.last(), rando, person),
            None => before,
        }
    }
}

/// Makes `person` a friend of each sibling that the lookups found:
/// `randos` holds, for each try, the sibling of a well-known person that was
/// found, or nothing. The identifiers of the friendships are drawn at random.
pub fn make_random_friendships(
    writer: &mut WriteHandle,
    person: Thing,
    randos: &Vec<Option<Thing>>,
)
    ensures
        exists|ids: Seq<u64>|
            ids.len() == randos@.len() && final(writer)@ == old(writer)@
                + #[trigger] random_friendship_puts(ids, randos@, person),
{
    let ghost mut ids: Seq<u64> = Seq::empty();
    let mut i: usize = 0;
    while i < randos.len()
        invariant
            i <= randos@.len(),
            ids.len() == i,
            writer@ == old(writer)@ + random_friendship_puts(ids, randos@.take(i as int), person),
        decreases randos@.len() - i,
    {
        let ghost before = ids;
        match randos[i] {
            Some(rando) => {
                let id = random_u64();
                make_friendship_as(writer, id, rando, person);
                proof {
                    ids = before.push(id);
                }
            },
            None => {
                proof {
                    ids = before.push(0);
                }
            },
        }
        proof {
            assert(ids.drop_last() =~= before);
            assert(randos@.take(i + 1).drop_last() =~= randos@.take(i as int));
            assert(writer@ =~= old(writer)@ + random_friendship_puts(
                ids,
                randos@.take(i + 1),
                person,
            ));
        }
        i = i + 1;
    }
    proof {
        assert(randos@.take(i as int) =~= randos@);
    }
}

} // verus!
