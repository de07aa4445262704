use crate::document::{
    element_values, lemma_supported_document_parses, member_values, supported, text_of, unquoted,
    value_of_document, Document, Member, Node, Sign,
};
use crate::grammar::{value_at, Outcome};
use crate::value::{
    decimal_value, lemma_numeral_of, lemma_values_of, members_of, numeral_of, value_of,
    values_of, JsonObject, JsonValue,
};
use vstd::prelude::*;

verus! {

/// The trees that can be written so that they are read back: no string and no
/// key of them holds a quote, and no array of them is empty. Every tree that
/// the parser gives is one.
pub open spec fn writable(tree: JsonObject) -> bool
    decreases tree,
{
    match tree {
        JsonObject::Object(members) => forall|i: int|
            0 <= i < members@.len() ==> {
                &&& unquoted((#[trigger] members@[i]).0@)
                &&& writable(members@[i].1)
            },
        JsonObject::Array(items) => {
            &&& items@.len() >= 1
            &&& forall|i: int| 0 <= i < items@.len() ==> writable(#[trigger] items@[i])
        },
        JsonObject::String(text) => unquoted(text@),
        _ => true,
    }
}

/// A tree written down without spaces: the members of an object and the
/// elements of an array in the order in which the tree holds them, a number
/// with a minus sign or none and without leading zeros.
pub open spec fn written(tree: JsonObject) -> Document
    decreases tree,
{
    Document {
        space: Seq::empty(),
        node: match tree {
            JsonObject::Object(members) => Node::Object(written_members(members@)),
            JsonObject::Array(items) => Node::Array(written_items(items@)),
            JsonObject::String(text) => Node::String(text@),
            JsonObject::Number(number) => Node::Number {
                sign: if number.negative {
                    Sign::Minus
                } else {
                    Sign::Unsigned
                },
                digits: numeral_of(decimal_value(number.digits@)),
            },
            JsonObject::Boolean(truth) => Node::Boolean(truth),
            JsonObject::Null => Node::Null,
        },
    }
}

/// The elements of an array, each written down.
pub open spec fn written_items(items: Seq<JsonObject>) -> Seq<Document>
    decreases items,
{
    if items.len() == 0 {
        Seq::empty()
    } else {
        written_items(items.drop_last()).push(written(items.last()))
    }
}

/// The members of an object, each written down.
pub open spec fn written_members(members: Seq<(String, JsonObject)>) -> Seq<Member>
    decreases members,
{
    if members.len() == 0 {
        Seq::empty()
    } else {
        written_members(members.drop_last()).push(
            Member {
                space: Seq::empty(),
                key: members.last().0@,
                value: written(members.last().1),
            },
        )
    }
}

/// The text that a tree is written as.
pub open spec fn text_of_tree(tree: JsonObject) -> Seq<u8> {
    text_of(written(tree))
}

/// `written_items` maps `written` over the sequence.
proof fn lemma_written_items(items: Seq<JsonObject>)
    ensures
        written_items(items).len() == items.len(),
        forall|i: int|
            0 <= i < items.len() ==> #[trigger] written_items(items)[i] == written(items[i]),
    decreases items.len(),
{
    if items.len() > 0 {
        lemma_written_items(items.drop_last());
    }
}

/// `written_members` writes each member in its place.
proof fn lemma_written_members(members: Seq<(String, JsonObject)>)
    ensures
        written_members(members).len() == members.len(),
        forall|i: int|
            0 <= i < members.len() ==> #[trigger] written_members(members)[i] == (Member {
                space: Seq::empty(),
                key: members[i].0@,
                value: written(members[i].1),
            }),
    decreases members.len(),
{
    if members.len() > 0 {
        lemma_written_members(members.drop_last());
    }
}

/// `element_values` maps `value_of_document` over the sequence.
proof fn lemma_element_values(items: Seq<Document>)
    ensures
        element_values(items).len() == items.len(),
        forall|i: int|
            0 <= i < items.len() ==> #[trigger] element_values(items)[i] == value_of_document(
                items[i],
            ),
    decreases items.len(),
{
    if items.len() > 0 {
        lemma_element_values(items.drop_first());
        assert forall|i: int| 0 <= i < items.len() implies #[trigger] element_values(items)[i]
            == value_of_document(items[i]) by {
            if i > 0 {
                assert(element_values(items)[i] == element_values(items.drop_first())[i - 1]);
                assert(items.drop_first()[i - 1] == items[i]);
            }
        }
    }
}

/// Putting members into a map one after the other, the last is put in last.
proof fn lemma_member_values_last(members: Seq<Member>, seen: Map<Seq<char>, JsonValue>)
    requires
        members.len() >= 1,
    ensures
        member_values(members, seen) == member_values(members.drop_last(), seen).insert(
            members.last().key,
            value_of_document(members.last().value),
        ),
    decreases members.len(),
{
    let next = seen.insert(members[0].key, value_of_document(members[0].value));
    if members.len() == 1 {
        assert(members.drop_first().len() == 0);
        assert(members.drop_last().len() == 0);
        assert(member_values(members.drop_first(), next) == next);
    } else {
        lemma_member_values_last(members.drop_first(), next);
        assert(members.drop_first().drop_last() =~= members.drop_last().drop_first());
        assert(members.drop_last()[0] == members[0]);
        assert(members.drop_first().last() == members.last());
    }
}

/// What a tree is written as is a supported document, and writes the value of
/// the tree.
pub proof fn lemma_written_value(tree: JsonObject)
    requires
        writable(tree),
    ensures
        supported(written(tree)),
        value_of_document(written(tree)) == value_of(tree),
    decreases tree,
{
    match tree {
        JsonObject::Object(members) => {
            lemma_written_members(members@);
            assert forall|i: int| 0 <= i < members@.len() implies supported(
                #[trigger] written_members(members@)[i].value,
            ) by {
                assert(writable(members@[i].1));
                lemma_written_value(members@[i].1);
            }
            lemma_written_members_value(members@);
        },
        JsonObject::Array(items) => {
            lemma_written_items(items@);
            lemma_element_values(written_items(items@));
            lemma_values_of(items@);
            assert forall|i: int| 0 <= i < items@.len() implies supported(
                #[trigger] written_items(items@)[i],
            ) && value_of_document(written_items(items@)[i]) == value_of(items@[i]) by {
                assert(writable(items@[i]));
                lemma_written_value(items@[i]);
            }
            assert(element_values(written_items(items@)) =~= values_of(items@));
        },
        JsonObject::Number(number) => {
            lemma_numeral_of(decimal_value(number.digits@));
        },
        _ => {},
    }
}

/// The members of a tree, written down, make the map that they make in the
/// tree.
proof fn lemma_written_members_value(members: Seq<(String, JsonObject)>)
    requires
        forall|i: int|
            0 <= i < members.len() ==> {
                &&& unquoted((#[trigger] members[i]).0@)
                &&& writable(members[i].1)
            },
    ensures
        member_values(written_members(members), Map::empty()) == members_of(members),
    decreases members,
{
    if members.len() > 0 {
        let front = members.drop_last();
        assert forall|i: int| 0 <= i < front.len() implies {
            &&& unquoted((#[trigger] front[i]).0@)
            &&& writable(front[i].1)
        } by {
            assert(front[i] == members[i]);
        }
        lemma_written_members_value(front);
        assert(writable(members[members.len() - 1].1));
        lemma_written_value(members.last().1);
        lemma_member_values_last(written_members(members), Map::empty());
        assert(written_members(members).drop_last() =~= written_members(front));
    }
}

/// A writable tree, written down and read again, gives a tree of the same
/// value, and the reading ends where the text ends.
pub proof fn lemma_written_tree_parses(tree: JsonObject)
    requires
        writable(tree),
    ensures
        value_at(text_of_tree(tree), 0) == (Outcome::Parsed {
            value: tree@,
            end: text_of_tree(tree).len() as int,
        }),
{
    lemma_written_value(tree);
    lemma_supported_document_parses(written(tree));
}

} // verus!
