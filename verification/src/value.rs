use vstd::prelude::*;

verus! {

/// A number as it was read: its sign and its decimal digits, most significant
/// first. Each digit is kept as its value, `0` to `9`, so no precision is lost
/// however long the numeral is.
#[derive(Debug, PartialEq, Eq)]
pub struct JsonNumber {
    pub negative: bool,
    pub digits: Vec<u8>,
}

impl JsonNumber {
    /// The natural number that the digits write.
    pub open spec fn magnitude(&self) -> nat {
        decimal_value(self.digits@)
    }
}

/// A JSON value tree.
///
/// An object keeps its members in a vector of key and value pairs in which no
/// key occurs twice (see [`well_formed`]); the order of the pairs carries no
/// meaning, and the view of an object is a map.
#[derive(Debug, PartialEq)]
pub enum JsonObject {
    Object(Vec<(String, JsonObject)>),
    Array(Vec<JsonObject>),
    String(String),
    Number(JsonNumber),
    Boolean(bool),
    Null,
}

/// The mathematical value that a [`JsonObject`] stands for.
pub enum JsonValue {
    Object(Map<Seq<char>, JsonValue>),
    Array(Seq<JsonValue>),
    String(Seq<char>),
    Number { negative: bool, magnitude: nat },
    Boolean(bool),
    Null,
}

/// The natural number written by a sequence of decimal digit values.
pub open spec fn decimal_value(digits: Seq<u8>) -> nat
    decreases digits.len(),
{
    if digits.len() == 0 {
        0
    } else {
        decimal_value(digits.drop_last()) * 10 + digits.last() as nat
    }
}

/// The digit values that write a natural number, without leading zeros.
pub open spec fn numeral_of(number: nat) -> Seq<u8>
    decreases number,
{
    if number < 10 {
        seq![number as u8]
    } else {
        numeral_of(number / 10).push((number % 10) as u8)
    }
}

/// The numeral of a number has a digit, holds digit values only, and writes
/// that number.
pub proof fn lemma_numeral_of(number: nat)
    ensures
        numeral_of(number).len() >= 1,
        decimal_digits(numeral_of(number)),
        decimal_value(numeral_of(number)) == number,
    decreases number,
{
    reveal_with_fuel(decimal_value, 2);
    if number >= 10 {
        lemma_numeral_of(number / 10);
        let front = numeral_of(number / 10);
        assert(front.push((number % 10) as u8).drop_last() =~= front);
    } else {
        assert(seq![number as u8].drop_last() =~= Seq::<u8>::empty());
    }
}

/// The value of a tree.
pub open spec fn value_of(tree: JsonObject) -> JsonValue
    decreases tree,
{
    match tree {
        JsonObject::Object(members) => JsonValue::Object(members_of(members@)),
        JsonObject::Array(items) => JsonValue::Array(values_of(items@)),
        JsonObject::String(text) => JsonValue::String(text@),
        JsonObject::Number(number) => JsonValue::Number {
            negative: number.negative,
            magnitude: number.magnitude(),
        },
        JsonObject::Boolean(truth) => JsonValue::Boolean(truth),
        JsonObject::Null => JsonValue::Null,
    }
}

/// The values of a sequence of trees, in order.
pub open spec fn values_of(items: Seq<JsonObject>) -> Seq<JsonValue>
    decreases items,
{
    if items.len() == 0 {
        Seq::empty()
    } else {
        values_of(items.drop_last()).push(value_of(items.last()))
    }
}

/// The map that a sequence of members builds when they are inserted one after
/// the other: a later member replaces an earlier one with the same key.
pub open spec fn members_of(members: Seq<(String, JsonObject)>) -> Map<Seq<char>, JsonValue>
    decreases members,
{
    if members.len() == 0 {
        Map::empty()
    } else {
        members_of(members.drop_last()).insert(members.last().0@, value_of(members.last().1))
    }
}

/// No two members have the same key.
pub open spec fn distinct_keys(members: Seq<(String, JsonObject)>) -> bool {
    forall|i: int, j: int|
        0 <= i < j < members.len() ==> (#[trigger] members[i]).0@ != (#[trigger] members[j]).0@
}

/// Every digit is a decimal digit value.
pub open spec fn decimal_digits(digits: Seq<u8>) -> bool {
    forall|i: int| 0 <= i < digits.len() ==> #[trigger] digits[i] <= 9
}

/// The invariant of a tree: in every object of it the keys are distinct, and
/// every number of it holds decimal digit values only.
pub open spec fn well_formed(tree: JsonObject) -> bool
    decreases tree,
{
    match tree {
        JsonObject::Object(members) => {
            &&& distinct_keys(members@)
            &&& forall|i: int|
                0 <= i < members@.len() ==> well_formed((#[trigger] members@[i]).1)
        },
        JsonObject::Array(items) => forall|i: int|
            0 <= i < items@.len() ==> well_formed(#[trigger] items@[i]),
        JsonObject::Number(number) => decimal_digits(number.digits@),
        _ => true,
    }
}

impl View for JsonObject {
    type V = JsonValue;

    open spec fn view(&self) -> JsonValue {
        value_of(*self)
    }
}

impl JsonObject {
    /// See [`well_formed`].
    pub open spec fn wf(&self) -> bool {
        well_formed(*self)
    }
}

/// `values_of` maps `value_of` over the sequence.
pub proof fn lemma_values_of(items: Seq<JsonObject>)
    ensures
        values_of(items).len() == items.len(),
        forall|i: int| 0 <= i < items.len() ==> #[trigger] values_of(items)[i] == value_of(items[i]),
    decreases items.len(),
{
    if items.len() > 0 {
        lemma_values_of(items.drop_last());
    }
}

/// What `members_of` holds: exactly the keys of the members, and under each key
/// the value of the last member that has it.
pub proof fn lemma_members_of(members: Seq<(String, JsonObject)>)
    ensures
        members_of(members).dom().finite(),
        forall|key: Seq<char>|
            #[trigger] members_of(members).dom().contains(key) <==> exists|i: int|
                0 <= i < members.len() && (#[trigger] members[i]).0@ == key,
        forall|i: int|
            0 <= i < members.len() && (forall|j: int|
                i < j < members.len() ==> (#[trigger] members[j]).0@ != members[i].0@)
                ==> members_of(members)[(#[trigger] members[i]).0@] == value_of(members[i].1),
    decreases members.len(),
{
    if members.len() > 0 {
        let front = members.drop_last();
        let last = members.last();
        lemma_members_of(front);
        assert forall|key: Seq<char>| #[trigger]
            members_of(members).dom().contains(key) implies exists|i: int|
            0 <= i < members.len() && (#[trigger] members[i]).0@ == key by {
            if key == last.0@ {
                assert(members[members.len() - 1].0@ == key);
            } else {
                let i = choose|i: int| 0 <= i < front.len() && (#[trigger] front[i]).0@ == key;
                assert(members[i].0@ == key);
            }
        }
        assert forall|key: Seq<char>|
            (exists|i: int| 0 <= i < members.len() && (#[trigger] members[i]).0@ == key)
            implies #[trigger] members_of(members).dom().contains(key) by {
            let i = choose|i: int| 0 <= i < members.len() && (#[trigger] members[i]).0@ == key;
            if i < front.len() {
                assert(front[i].0@ == key);
            }
        }
        assert forall|i: int|
            0 <= i < members.len() && (forall|j: int|
                i < j < members.len() ==> (#[trigger] members[j]).0@ != members[i].0@)
            implies members_of(members)[(#[trigger] members[i]).0@] == value_of(members[i].1) by {
            if i < front.len() {
                assert(members[members.len() - 1].0@ != members[i].0@);
                assert forall|j: int| i < j < front.len() implies (#[trigger] front[j]).0@
                    != front[i].0@ by {
                    assert(members[j].0@ != members[i].0@);
                }
                assert(front[i] == members[i]);
            }
        }
    }
}

/// The place of the member that has the given key.
pub fn find_member(members: &Vec<(String, JsonObject)>, key: &String) -> (found: Option<usize>)
    ensures
        match found {
            Some(index) => {
                &&& index < members@.len()
                &&& members@[index as int].0@ == key@
                &&& forall|i: int| 0 <= i < index ==> (#[trigger] members@[i]).0@ != key@
            },
            None => forall|i: int| 0 <= i < members@.len() ==> (#[trigger] members@[i]).0@ != key@,
        },
{
    let mut index: usize = 0;
    while index < members.len()
        invariant
            index <= members@.len(),
            forall|i: int| 0 <= i < index ==> (#[trigger] members@[i]).0@ != key@,
        decreases members@.len() - index,
    {
        if members[index].0 == *key {
            return Some(index);
        }
        index += 1;
    }
    None
}

/// Puts a member into an object: it takes the place of the member that has
/// its key, or comes last where none has. For the map that the members
/// build, this is an insertion.
pub fn insert_member(members: &mut Vec<(String, JsonObject)>, key: String, value: JsonObject)
    requires
        distinct_keys(old(members)@),
    ensures
        forall|i: int|
            0 <= i < old(members)@.len() && (#[trigger] old(members)@[i]).0@ == key@
                ==> final(members)@ == old(members)@.update(i, (key, value)),
        (forall|i: int| 0 <= i < old(members)@.len() ==> (#[trigger] old(members)@[i]).0@ != key@)
            ==> final(members)@ == old(members)@.push((key, value)),
        forall|i: int|
            0 <= i < final(members)@.len() ==> #[trigger] final(members)@[i] == (key, value) || (i
                < old(members)@.len() && final(members)@[i] == old(members)@[i]),
        distinct_keys(final(members)@),
        members_of(final(members)@) == members_of(old(members)@).insert(key@, value_of(value)),
{
    let ghost before = members@;
    let ghost entry = (key, value);
    match find_member(members, &key) {
        Some(index) => {
            members[index] = (key, value);
        },
        None => {
            members.push((key, value));
        },
    }
    proof {
        let after = members@;
        assert forall|i: int, j: int| 0 <= i < j < after.len() implies (#[trigger] after[i]).0@ != (
        #[trigger] after[j]).0@ by {
            if i < before.len() && after[i] != entry {
                assert(after[i] == before[i]);
            }
            if j < before.len() && after[j] != entry {
                assert(after[j] == before[j]);
            }
        }
        lemma_members_of(before);
        lemma_members_of(after);
        let expected = members_of(before).insert(entry.0@, value_of(entry.1));
        assert forall|name: Seq<char>| #[trigger]
            members_of(after).dom().contains(name) == expected.dom().contains(name) by {
            if members_of(after).dom().contains(name) {
                let i = choose|i: int| 0 <= i < after.len() && (#[trigger] after[i]).0@ == name;
                if after[i] != entry {
                    assert(before[i].0@ == name);
                }
            }
            if expected.dom().contains(name) && name != entry.0@ {
                let i = choose|i: int| 0 <= i < before.len() && (#[trigger] before[i]).0@ == name;
                assert(after[i].0@ == name);
            }
            if name == entry.0@ {
                let at = if after.len() > before.len() {
                    before.len() as int
                } else {
                    choose|i: int| 0 <= i < after.len() && after[i] == entry
                };
                assert(after[at].0@ == name);
            }
        }
        assert forall|name: Seq<char>| #[trigger]
            members_of(after).dom().contains(name) implies members_of(after)[name]
            == expected[name] by {
            let i = choose|i: int| 0 <= i < after.len() && (#[trigger] after[i]).0@ == name;
            assert(after[i].0@ == name);
            if name != entry.0@ {
                assert(before[i] == after[i]);
                assert(before[i].0@ == name);
            }
        }
        assert(members_of(after) =~= expected);
    }
}

} // verus!
