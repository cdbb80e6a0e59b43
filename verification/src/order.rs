//! The order of keys is the order of their fields.
//!
//! A sorted store compares keys byte by byte. Every number in a key is
//! written most significant byte first, and every field has a fixed width, so
//! that comparison orders keys by their first field, then by their second, and
//! so on, each number in its numeric order.

use crate::bytes::{
    be_bytes, fits_in, lemma_be_bytes_len, lemma_be_value_of_bytes, lemma_u64_fits,
};
use crate::concept::{RelationSiblingEdge, Thing};
use crate::scan::lex_le;
use vstd::prelude::*;

verus! {

/// Bytes that two keys have in common at their start do not count in their
/// order.
pub proof fn lemma_order_after_common_prefix(prefix: Seq<u8>, a: Seq<u8>, b: Seq<u8>)
    ensures
        lex_le(prefix + a, prefix + b) == lex_le(a, b),
    decreases prefix.len(),
{
    if prefix.len() == 0 {
        assert(prefix + a =~= a);
        assert(prefix + b =~= b);
    } else {
        let rest = prefix.drop_first();
        assert((prefix + a).drop_first() =~= rest + a);
        assert((prefix + b).drop_first() =~= rest + b);
        lemma_order_after_common_prefix(rest, a, b);
    }
}

/// Two keys that begin with fields of one width are ordered by those fields
/// where the fields differ, and by what follows where they are the same.
pub proof fn lemma_order_by_fields(a: Seq<u8>, b: Seq<u8>, c: Seq<u8>, d: Seq<u8>)
    requires
        a.len() == b.len(),
    ensures
        lex_le(a + c, b + d) == if a == b {
            lex_le(c, d)
        } else {
            lex_le(a, b)
        },
    decreases a.len(),
{
    if a.len() == 0 {
        assert(a =~= b);
        assert(a + c =~= c);
        assert(b + d =~= d);
    } else {
        let rest_a = a.drop_first();
        let rest_b = b.drop_first();
        assert((a + c).drop_first() =~= rest_a + c);
        assert((b + d).drop_first() =~= rest_b + d);
        assert((a + c)[0] == a[0] && (b + d)[0] == b[0]);
        lemma_order_by_fields(rest_a, rest_b, c, d);
        assert(a =~= seq![a[0]] + rest_a);
        assert(b =~= seq![b[0]] + rest_b);
        if a[0] == b[0] {
            assert(a == b <==> rest_a == rest_b);
        }
    }
}

/// The byte order of two numbers that are written in as many bytes, most
/// significant byte first, is their numeric order.
pub proof fn lemma_be_bytes_order(x: nat, y: nat, n: nat)
    requires
        fits_in(x, n),
        fits_in(y, n),
    ensures
        lex_le(be_bytes(x, n), be_bytes(y, n)) <==> x <= y,
        be_bytes(x, n) == be_bytes(y, n) <==> x == y,
    decreases n,
{
    lemma_be_value_of_bytes(x, n);
    lemma_be_value_of_bytes(y, n);
    if n > 0 {
        let high_x = be_bytes(x / 256, (n - 1) as nat);
        let high_y = be_bytes(y / 256, (n - 1) as nat);
        let low_x = seq![(x % 256) as u8];
        let low_y = seq![(y % 256) as u8];
        lemma_be_bytes_order(x / 256, y / 256, (n - 1) as nat);
        lemma_be_bytes_len(x / 256, (n - 1) as nat);
        lemma_be_bytes_len(y / 256, (n - 1) as nat);
        assert(be_bytes(x, n) =~= high_x + low_x);
        assert(be_bytes(y, n) =~= high_y + low_y);
        lemma_order_by_fields(high_x, high_y, low_x, low_y);
        assert(lex_le(low_x, low_y) <==> x % 256 <= y % 256) by {
            reveal_with_fuel(lex_le, 2);
            assert(low_x.drop_first().len() == 0);
            assert(low_x[0] == (x % 256) as u8 && low_y[0] == (y % 256) as u8);
        }
        assert(low_x == low_y <==> x % 256 == y % 256) by {
            assert(low_x[0] == (x % 256) as u8 && low_y[0] == (y % 256) as u8);
        }
        assert(be_bytes(x, n) == be_bytes(y, n) <==> high_x == high_y && low_x == low_y) by {
            if be_bytes(x, n) == be_bytes(y, n) {
                assert(high_x =~= be_bytes(x, n).drop_last());
                assert(high_y =~= be_bytes(y, n).drop_last());
                assert(low_x =~= seq![be_bytes(x, n).last()]);
                assert(low_y =~= seq![be_bytes(y, n).last()]);
            }
        }
    }
}

/// Things of one type are ordered, as keys, by their identifiers.
pub proof fn lemma_things_order(a: Thing, b: Thing)
    requires
        a.type_ == b.type_,
    ensures
        lex_le(a.encoding(), b.encoding()) <==> a.thing_id.id <= b.thing_id.id,
        a.encoding() == b.encoding() <==> a == b,
{
    lemma_u64_fits(a.thing_id.id);
    lemma_u64_fits(b.thing_id.id);
    lemma_be_bytes_order(a.thing_id.id as nat, b.thing_id.id as nat, 8);
    lemma_order_after_common_prefix(
        a.type_.encoding(),
        be_bytes(a.thing_id.id as nat, 8),
        be_bytes(b.thing_id.id as nat, 8),
    );
    a.lemma_decoding_of_encoding();
    b.lemma_decoding_of_encoding();
}

/// The shortcuts that lead from one player, in one role, through relations
/// of one type come in the order of the identifiers of their relations; the
/// shortcuts of one relation, and to players of one type in one role, come in
/// the order of the identifiers of those players.
pub proof fn lemma_shortcuts_order(one: RelationSiblingEdge, other: RelationSiblingEdge)
    requires
        one.lhs_player == other.lhs_player,
        one.lhs_role_type == other.lhs_role_type,
        one.rel.type_ == other.rel.type_,
    ensures
        one.rel.thing_id.id < other.rel.thing_id.id ==> lex_le(
            one.forward_encoding(),
            other.forward_encoding(),
        ) && !lex_le(other.forward_encoding(), one.forward_encoding()),
        one.rel == other.rel && one.rhs_role_type == other.rhs_role_type && one.rhs_player.type_
            == other.rhs_player.type_ ==> (lex_le(one.forward_encoding(), other.forward_encoding())
            <==> one.rhs_player.thing_id.id <= other.rhs_player.thing_id.id),
{
    let head = one.lhs_player.encoding() + seq![crate::concept::EdgeType::Sibling.byte()]
        + one.lhs_role_type.encoding();
    let tail_of_one = one.rhs_role_type.encoding() + one.rhs_player.encoding();
    let tail_of_other = other.rhs_role_type.encoding() + other.rhs_player.encoding();
    assert(one.forward_encoding() =~= head + (one.rel.encoding() + tail_of_one));
    assert(other.forward_encoding() =~= head + (other.rel.encoding() + tail_of_other));
    lemma_order_after_common_prefix(
        head,
        one.rel.encoding() + tail_of_one,
        other.rel.encoding() + tail_of_other,
    );
    lemma_order_after_common_prefix(
        head,
        other.rel.encoding() + tail_of_other,
        one.rel.encoding() + tail_of_one,
    );
    one.rel.lemma_encoding_len();
    other.rel.lemma_encoding_len();
    lemma_order_by_fields(one.rel.encoding(), other.rel.encoding(), tail_of_one, tail_of_other);
    lemma_order_by_fields(other.rel.encoding(), one.rel.encoding(), tail_of_other, tail_of_one);
    lemma_things_order(one.rel, other.rel);
    lemma_things_order(other.rel, one.rel);
    if one.rel == other.rel && one.rhs_role_type == other.rhs_role_type && one.rhs_player.type_
        == other.rhs_player.type_ {
        lemma_order_after_common_prefix(
            one.rhs_role_type.encoding(),
            one.rhs_player.encoding(),
            other.rhs_player.encoding(),
        );
        lemma_things_order(one.rhs_player, other.rhs_player);
    }
}

} // verus!
