use crate::grammar::{
    byte_at, digit_class, digit_values, elements_from, false_text, is_digit, is_space,
    lemma_run_end_is, matches_at, members_from, null_text, number_at, run_end, space_class,
    string_at, true_text, unquoted_class, value_at, Outcome, CLOSE_BRACE, CLOSE_BRACKET, COLON,
    COMMA, DIGIT_ZERO, LOWER_F, LOWER_N, LOWER_T, MINUS, OPEN_BRACE, OPEN_BRACKET, PLUS, QUOTE,
};
use crate::text::lemma_encoding_without_quote;
use crate::value::{decimal_digits, decimal_value, JsonValue};
use vstd::prelude::*;
use vstd::utf8::{encode_utf8, encode_utf8_decode_utf8};

verus! {

/// The sign that a numeral is written with.
pub enum Sign {
    Unsigned,
    Minus,
    Plus,
}

/// A value as it is written: the spaces in front of it, and what is written
/// behind them.
pub struct Document {
    pub space: Seq<u8>,
    pub node: Node,
}

/// What is written for a value. A number is its sign and its digit values, a
/// string the characters between its quotes.
pub enum Node {
    Null,
    Boolean(bool),
    Number { sign: Sign, digits: Seq<u8> },
    String(Seq<char>),
    Array(Seq<Document>),
    Object(Seq<Member>),
}

/// A member of an object as it is written: the spaces in front of its key, the
/// key, and the value behind the colon.
pub struct Member {
    pub space: Seq<u8>,
    pub key: Seq<char>,
    pub value: Document,
}

/// Every byte is a space, a tab or a newline.
pub open spec fn all_spaces(space: Seq<u8>) -> bool {
    forall|i: int| 0 <= i < space.len() ==> is_space(#[trigger] space[i])
}

/// The text holds no quote.
pub open spec fn unquoted(text: Seq<char>) -> bool {
    forall|i: int| 0 <= i < text.len() ==> #[trigger] text[i] != '"'
}

/// The documents that can be read back: spaces are spaces, tabs and newlines;
/// a number has a digit; no string and no key holds a quote; an array has an
/// element.
pub open spec fn supported(document: Document) -> bool
    decreases document,
{
    &&& all_spaces(document.space)
    &&& match document.node {
        Node::Number { sign, digits } => digits.len() >= 1 && decimal_digits(digits),
        Node::String(text) => unquoted(text),
        Node::Array(items) => {
            &&& items.len() >= 1
            &&& forall|i: int| 0 <= i < items.len() ==> supported(#[trigger] items[i])
        },
        Node::Object(members) => forall|i: int|
            0 <= i < members.len() ==> {
                &&& all_spaces((#[trigger] members[i]).space)
                &&& unquoted(members[i].key)
                &&& supported(members[i].value)
            },
        _ => true,
    }
}

/// The byte that writes a sign, if any does.
pub open spec fn sign_text(sign: Sign) -> Seq<u8> {
    match sign {
        Sign::Unsigned => Seq::empty(),
        Sign::Minus => seq![MINUS],
        Sign::Plus => seq![PLUS],
    }
}

/// The ASCII digits that write a sequence of digit values.
pub open spec fn digit_text(digits: Seq<u8>) -> Seq<u8> {
    Seq::new(digits.len(), |i: int| (digits[i] + DIGIT_ZERO) as u8)
}

/// A text between quotes, in UTF-8.
pub open spec fn string_text(text: Seq<char>) -> Seq<u8> {
    seq![QUOTE] + encode_utf8(text) + seq![QUOTE]
}

/// The text of a document.
pub open spec fn text_of(document: Document) -> Seq<u8>
    decreases document,
{
    document.space + match document.node {
        Node::Null => null_text(),
        Node::Boolean(truth) => if truth {
            true_text()
        } else {
            false_text()
        },
        Node::Number { sign, digits } => sign_text(sign) + digit_text(digits),
        Node::String(text) => string_text(text),
        Node::Array(items) => seq![OPEN_BRACKET] + elements_text(items),
        Node::Object(members) => seq![OPEN_BRACE] + members_text(members),
    }
}

/// The elements of an array with a comma between each two, and the closing
/// bracket.
pub open spec fn elements_text(items: Seq<Document>) -> Seq<u8>
    decreases items,
{
    if items.len() == 0 {
        seq![CLOSE_BRACKET]
    } else {
        text_of(items[0]) + separator(items.len()) + elements_text(items.drop_first())
    }
}

/// The members of an object with a comma between each two, and the closing
/// brace.
pub open spec fn members_text(members: Seq<Member>) -> Seq<u8>
    decreases members,
{
    if members.len() == 0 {
        seq![CLOSE_BRACE]
    } else {
        members[0].space + string_text(members[0].key) + seq![COLON] + text_of(members[0].value)
            + separator(members.len()) + members_text(members.drop_first())
    }
}

/// What stands behind the first of `count` things in a list: a comma where
/// another follows.
pub open spec fn separator(count: nat) -> Seq<u8> {
    if count > 1 {
        seq![COMMA]
    } else {
        Seq::empty()
    }
}

/// The value that a document writes.
pub open spec fn value_of_document(document: Document) -> JsonValue
    decreases document,
{
    match document.node {
        Node::Null => JsonValue::Null,
        Node::Boolean(truth) => JsonValue::Boolean(truth),
        Node::Number { sign, digits } => JsonValue::Number {
            negative: sign is Minus,
            magnitude: decimal_value(digits),
        },
        Node::String(text) => JsonValue::String(text),
        Node::Array(items) => JsonValue::Array(element_values(items)),
        Node::Object(members) => JsonValue::Object(member_values(members, Map::empty())),
    }
}

/// The values of the elements, in order.
pub open spec fn element_values(items: Seq<Document>) -> Seq<JsonValue>
    decreases items,
{
    if items.len() == 0 {
        Seq::empty()
    } else {
        seq![value_of_document(items[0])] + element_values(items.drop_first())
    }
}

/// The map that the members make of `seen` when they are put into it one after
/// the other.
pub open spec fn member_values(members: Seq<Member>, seen: Map<Seq<char>, JsonValue>) -> Map<
    Seq<char>,
    JsonValue,
>
    decreases members,
{
    if members.len() == 0 {
        seen
    } else {
        member_values(
            members.drop_first(),
            seen.insert(members[0].key, value_of_document(members[0].value)),
        )
    }
}

/// Where a text stands that is made of two, both stand, one behind the other.
pub proof fn lemma_matches_parts(source: Seq<u8>, at: int, front: Seq<u8>, back: Seq<u8>)
    requires
        matches_at(source, at, front + back),
    ensures
        matches_at(source, at, front),
        matches_at(source, at + front.len(), back),
{
    let whole = source.subrange(at, at + (front + back).len());
    assert forall|i: int| 0 <= i < front.len() implies source[at + i] == front[i] by {
        assert(whole[i] == (front + back)[i]);
    }
    assert forall|i: int| 0 <= i < back.len() implies source[at + front.len() + i] == back[i] by {
        assert(whole[front.len() + i] == (front + back)[front.len() + i]);
    }
    assert(source.subrange(at, at + front.len()) =~= front);
    assert(source.subrange(at + front.len(), at + front.len() + back.len()) =~= back);
}

/// The bytes of a text that stands in another are bytes of that other.
pub proof fn lemma_matches_bytes(source: Seq<u8>, at: int, text: Seq<u8>)
    requires
        matches_at(source, at, text),
    ensures
        forall|i: int| 0 <= i < text.len() ==> byte_at(source, at + i) == #[trigger] text[i],
{
    assert forall|i: int| 0 <= i < text.len() implies byte_at(source, at + i) == #[trigger] text[i] by {
        assert(source.subrange(at, at + text.len())[i] == text[i]);
    }
}

/// The byte that a value may begin with.
pub open spec fn opens_value(byte: u8) -> bool {
    ||| byte == OPEN_BRACE
    ||| byte == OPEN_BRACKET
    ||| byte == QUOTE
    ||| byte == LOWER_T
    ||| byte == LOWER_F
    ||| byte == LOWER_N
    ||| byte == MINUS
    ||| byte == PLUS
    ||| is_digit(byte)
}

/// What a document writes behind its spaces.
pub open spec fn node_text(document: Document) -> Seq<u8> {
    text_of(Document { space: Seq::empty(), node: document.node })
}

/// The text of a document is its spaces and what is written behind them, which
/// begins with a byte that announces a value.
pub proof fn lemma_text_shape(document: Document)
    requires
        supported(document),
    ensures
        text_of(document) == document.space + node_text(document),
        node_text(document).len() >= 1,
        opens_value(node_text(document)[0]),
{
    let bare = Document { space: Seq::empty(), node: document.node };
    match document.node {
        Node::Number { sign, digits } => {
            assert(digit_text(digits)[0] == (digits[0] + DIGIT_ZERO) as u8);
            assert(digits[0] <= 9);
        },
        _ => {},
    }
    assert(text_of(bare) =~= text_of(document).subrange(
        document.space.len() as int,
        text_of(document).len() as int,
    ));
    assert(text_of(document) =~= document.space + node_text(document));
}

/// Spaces that stand in front of a byte that is none are passed over, all of
/// them and nothing else.
pub proof fn lemma_spaces_read(source: Seq<u8>, from: int, space: Seq<u8>)
    requires
        all_spaces(space),
        matches_at(source, from, space),
        !is_space(byte_at(source, from + space.len())),
    ensures
        run_end(source, from, space_class()) == from + space.len(),
{
    lemma_matches_bytes(source, from, space);
    assert forall|i: int| from <= i < from + space.len() implies space_class()(
        #[trigger] source[i],
    ) by {
        assert(byte_at(source, from + (i - from)) == space[i - from]);
    }
    lemma_run_end_is(source, from, space_class(), from + space.len());
}

/// A string that holds no quote is read back as its encoding.
pub proof fn lemma_string_reads(source: Seq<u8>, at: int, text: Seq<char>)
    requires
        unquoted(text),
        matches_at(source, at, string_text(text)),
    ensures
        string_at(source, at) == (Outcome::Parsed {
            value: encode_utf8(text),
            end: at + string_text(text).len(),
        }),
{
    let inner = encode_utf8(text);
    lemma_encoding_without_quote(text);
    lemma_matches_parts(source, at, seq![QUOTE] + inner, seq![QUOTE]);
    lemma_matches_parts(source, at, seq![QUOTE], inner);
    lemma_matches_bytes(source, at, seq![QUOTE]);
    lemma_matches_bytes(source, at + 1, inner);
    lemma_matches_bytes(source, at + 1 + inner.len(), seq![QUOTE]);
    assert(byte_at(source, at + 0) == seq![QUOTE][0]);
    assert(byte_at(source, at + 1 + inner.len() + 0) == seq![QUOTE][0]);
    assert forall|i: int| at + 1 <= i < at + 1 + inner.len() implies unquoted_class()(
        #[trigger] source[i],
    ) by {
        assert(byte_at(source, at + 1 + (i - (at + 1))) == inner[i - (at + 1)]);
    }
    lemma_run_end_is(source, at + 1, unquoted_class(), at + 1 + inner.len());
}

/// A numeral with a digit, in front of a byte that is no digit, is read back
/// as a number with its sign and the value of its digits.
pub proof fn lemma_number_reads(source: Seq<u8>, at: int, sign: Sign, digits: Seq<u8>)
    requires
        digits.len() >= 1,
        decimal_digits(digits),
        matches_at(source, at, sign_text(sign) + digit_text(digits)),
        !is_digit(byte_at(source, at + (sign_text(sign) + digit_text(digits)).len())),
    ensures
        number_at(source, at) == (Outcome::Parsed {
            value: JsonValue::Number { negative: sign is Minus, magnitude: decimal_value(digits) },
            end: at + (sign_text(sign) + digit_text(digits)).len(),
        }),
{
    let mark = sign_text(sign);
    let numeral = digit_text(digits);
    lemma_matches_parts(source, at, mark, numeral);
    lemma_matches_bytes(source, at, mark);
    lemma_matches_bytes(source, at + mark.len(), numeral);
    let start = at + mark.len();
    assert(byte_at(source, start + 0) == numeral[0]);
    assert(digits[0] <= 9);
    if mark.len() > 0 {
        assert(byte_at(source, at + 0) == mark[0]);
    }
    assert forall|i: int| start <= i < start + numeral.len() implies digit_class()(
        #[trigger] source[i],
    ) by {
        assert(byte_at(source, start + (i - start)) == numeral[i - start]);
        assert(digits[i - start] <= 9);
    }
    lemma_run_end_is(source, start, digit_class(), start + numeral.len());
    assert forall|i: int| 0 <= i < digits.len() implies #[trigger] digit_values(numeral)[i]
        == digits[i] by {
        assert(digits[i] <= 9);
    }
    assert(digit_values(source.subrange(start, start + numeral.len())) =~= digits);
}

/// The text of a document stands in `source` at offset `at`, and where the
/// document is a number no digit follows it, which would be read as one of
/// its own.
pub open spec fn stands_at(source: Seq<u8>, at: int, document: Document) -> bool {
    &&& matches_at(source, at, text_of(document))
    &&& document.node is Number ==> !is_digit(byte_at(source, at + text_of(document).len()))
}

/// Reading a supported document gives its value and stops behind its text,
/// wherever in a text the document stands.
pub proof fn lemma_document_reads(document: Document, source: Seq<u8>, from: int)
    requires
        supported(document),
        stands_at(source, from, document),
    ensures
        value_at(source, from) == (Outcome::Parsed {
            value: value_of_document(document),
            end: from + text_of(document).len(),
        }),
    decreases document,
{
    let body = node_text(document);
    lemma_text_shape(document);
    lemma_matches_parts(source, from, document.space, body);
    let at = from + document.space.len();
    lemma_matches_bytes(source, at, body);
    assert(byte_at(source, at + 0) == body[0]);
    lemma_spaces_read(source, from, document.space);
    match document.node {
        Node::Null => {},
        Node::Boolean(truth) => {},
        Node::Number { sign, digits } => {
            assert(body =~= sign_text(sign) + digit_text(digits));
            lemma_number_reads(source, at, sign, digits);
        },
        Node::String(text) => {
            assert(body =~= string_text(text));
            lemma_string_reads(source, at, text);
            encode_utf8_decode_utf8(text);
        },
        Node::Array(items) => {
            assert(body =~= seq![OPEN_BRACKET] + elements_text(items));
            lemma_matches_parts(source, at, seq![OPEN_BRACKET], elements_text(items));
            lemma_elements_read(items, source, at + 1, Seq::empty());
            assert(Seq::<JsonValue>::empty() + element_values(items) =~= element_values(items));
        },
        Node::Object(members) => {
            assert(body =~= seq![OPEN_BRACE] + members_text(members));
            lemma_matches_parts(source, at, seq![OPEN_BRACE], members_text(members));
            lemma_members_read(members, source, at + 1, Map::empty());
        },
    }
}

/// Reading the elements of an array and its closing bracket gives the array
/// of the elements seen before and of these.
pub proof fn lemma_elements_read(
    items: Seq<Document>,
    source: Seq<u8>,
    from: int,
    seen: Seq<JsonValue>,
)
    requires
        items.len() >= 1,
        forall|i: int| 0 <= i < items.len() ==> supported(#[trigger] items[i]),
        matches_at(source, from, elements_text(items)),
    ensures
        elements_from(source, from, seen) == (Outcome::Parsed {
            value: JsonValue::Array(seen + element_values(items)),
            end: from + elements_text(items).len(),
        }),
    decreases items,
{
    let first = text_of(items[0]);
    let comma = separator(items.len());
    let rest = items.drop_first();
    let tail = elements_text(rest);
    assert(elements_text(items) =~= first + (comma + tail));
    lemma_matches_parts(source, from, first, comma + tail);
    let end = from + first.len();
    lemma_matches_parts(source, end, comma, tail);
    lemma_matches_bytes(source, end, comma);
    lemma_matches_bytes(source, end + comma.len(), tail);
    lemma_text_shape(items[0]);
    assert(supported(items[0]));
    if items.len() == 1 {
        assert(byte_at(source, end + 0 + 0) == tail[0]);
        assert(byte_at(source, end) == CLOSE_BRACKET);
        lemma_document_reads(items[0], source, from);
        assert(element_values(rest) =~= Seq::<JsonValue>::empty());
        assert(seen + element_values(items) =~= seen.push(value_of_document(items[0])));
    } else {
        assert(byte_at(source, end + 0) == comma[0]);
        assert(byte_at(source, end) == COMMA);
        lemma_document_reads(items[0], source, from);
        assert forall|i: int| 0 <= i < rest.len() implies supported(#[trigger] rest[i]) by {
            assert(rest[i] == items[i + 1]);
        }
        lemma_text_shape(rest[0]);
        assert(tail =~= text_of(rest[0]) + (separator(rest.len()) + elements_text(
            rest.drop_first(),
        )));
        assert(byte_at(source, end + 1 + 0) == tail[0]);
        assert(tail[0] == text_of(rest[0])[0]);
        if rest[0].space.len() > 0 {
            assert(text_of(rest[0])[0] == rest[0].space[0]);
        } else {
            assert(text_of(rest[0])[0] == node_text(rest[0])[0]);
        }
        lemma_elements_read(rest, source, end + 1, seen.push(value_of_document(items[0])));
        assert(seen.push(value_of_document(items[0])) + element_values(rest) =~= seen
            + element_values(items));
    }
}

/// Reading the members of an object and its closing brace gives the object
/// that the members make of those seen before.
pub proof fn lemma_members_read(
    members: Seq<Member>,
    source: Seq<u8>,
    from: int,
    seen: Map<Seq<char>, JsonValue>,
)
    requires
        forall|i: int|
            0 <= i < members.len() ==> {
                &&& all_spaces((#[trigger] members[i]).space)
                &&& unquoted(members[i].key)
                &&& supported(members[i].value)
            },
        matches_at(source, from, members_text(members)),
    ensures
        members_from(source, from, seen) == (Outcome::Parsed {
            value: JsonValue::Object(member_values(members, seen)),
            end: from + members_text(members).len(),
        }),
    decreases members,
{
    lemma_matches_bytes(source, from, members_text(members));
    if members.len() == 0 {
        assert(byte_at(source, from + 0) == members_text(members)[0]);
    } else {
        let member = members[0];
        let key = string_text(member.key);
        let value = text_of(member.value);
        let comma = separator(members.len());
        let rest = members.drop_first();
        let tail = members_text(rest);
        assert(all_spaces(member.space) && unquoted(member.key) && supported(member.value));
        assert(members_text(members) =~= member.space + (key + (seq![COLON] + (value + (comma
            + tail)))));
        lemma_matches_parts(source, from, member.space, key + (seq![COLON] + (value + (comma
            + tail))));
        let key_at = from + member.space.len();
        lemma_matches_parts(source, key_at, key, seq![COLON] + (value + (comma + tail)));
        let colon = key_at + key.len();
        lemma_matches_parts(source, colon, seq![COLON], value + (comma + tail));
        lemma_matches_parts(source, colon + 1, value, comma + tail);
        let end = colon + 1 + value.len();
        lemma_matches_parts(source, end, comma, tail);
        lemma_matches_bytes(source, key_at, key);
        lemma_matches_bytes(source, colon, seq![COLON]);
        lemma_matches_bytes(source, end, comma);
        lemma_matches_bytes(source, end + comma.len(), tail);
        assert(byte_at(source, key_at + 0) == key[0]);
        assert(byte_at(source, colon + 0) == seq![COLON][0]);
        lemma_spaces_read(source, from, member.space);
        if member.space.len() > 0 {
            lemma_matches_bytes(source, from, member.space);
            assert(byte_at(source, from + 0) == member.space[0]);
        }
        lemma_string_reads(source, key_at, member.key);
        encode_utf8_decode_utf8(member.key);
        assert forall|i: int| 0 <= i < rest.len() implies {
            &&& all_spaces((#[trigger] rest[i]).space)
            &&& unquoted(rest[i].key)
            &&& supported(rest[i].value)
        } by {
            assert(rest[i] == members[i + 1]);
        }
        if members.len() == 1 {
            assert(byte_at(source, end + 0 + 0) == tail[0]);
            assert(byte_at(source, end) == CLOSE_BRACE);
            lemma_document_reads(member.value, source, colon + 1);
        } else {
            assert(byte_at(source, end + 0) == comma[0]);
            assert(byte_at(source, end) == COMMA);
            lemma_document_reads(member.value, source, colon + 1);
            lemma_members_read(
                rest,
                source,
                end + 1,
                seen.insert(member.key, value_of_document(member.value)),
            );
        }
    }
}

/// Every supported document is read as the value that it writes, to the end of
/// its text.
pub proof fn lemma_supported_document_parses(document: Document)
    requires
        supported(document),
    ensures
        value_at(text_of(document), 0) == (Outcome::Parsed {
            value: value_of_document(document),
            end: text_of(document).len() as int,
        }),
{
    let text = text_of(document);
    assert(text.subrange(0, text.len() as int) =~= text);
    lemma_document_reads(document, text, 0);
}

} // verus!
