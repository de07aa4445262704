use crate::error::ErrorKind;
use crate::value::{decimal_value, JsonValue};
use vstd::prelude::*;
use vstd::utf8::decode_utf8;

verus! {

pub const TAB: u8 = 9;

pub const NEWLINE: u8 = 10;

pub const SPACE: u8 = 32;

pub const QUOTE: u8 = 34;

pub const PLUS: u8 = 43;

pub const COMMA: u8 = 44;

pub const MINUS: u8 = 45;

pub const DIGIT_ZERO: u8 = 48;

pub const DIGIT_NINE: u8 = 57;

pub const COLON: u8 = 58;

pub const OPEN_BRACKET: u8 = 91;

pub const CLOSE_BRACKET: u8 = 93;

pub const LOWER_F: u8 = 102;

pub const LOWER_N: u8 = 110;

pub const LOWER_T: u8 = 116;

pub const OPEN_BRACE: u8 = 123;

pub const CLOSE_BRACE: u8 = 125;

/// What reading a construct at some offset of a text gives: the thing read and
/// the offset just behind it, or the kind of failure and the offset at which
/// it shows.
pub enum Outcome<T> {
    Parsed { value: T, end: int },
    Failed { kind: ErrorKind, position: int },
}

/// The byte at `index`, or `0` where the text has none.
pub open spec fn byte_at(source: Seq<u8>, index: int) -> u8 {
    if 0 <= index < source.len() {
        source[index]
    } else {
        0
    }
}

/// Space, tab and newline separate tokens; a carriage return does not.
pub open spec fn is_space(byte: u8) -> bool {
    byte == SPACE || byte == TAB || byte == NEWLINE
}

/// The ASCII digits `0` to `9`.
pub open spec fn is_digit(byte: u8) -> bool {
    DIGIT_ZERO <= byte <= DIGIT_NINE
}

/// The bytes that are passed over in front of a value or a key.
pub open spec fn space_class() -> spec_fn(u8) -> bool {
    |byte: u8| is_space(byte)
}

/// The bytes that a numeral is made of.
pub open spec fn digit_class() -> spec_fn(u8) -> bool {
    |byte: u8| is_digit(byte)
}

/// The bytes that may stand between the quotes of a string: all but the
/// quote.
pub open spec fn unquoted_class() -> spec_fn(u8) -> bool {
    |byte: u8| byte != QUOTE
}

/// The end of the longest run of bytes of one class that starts at `from`.
pub open spec fn run_end(source: Seq<u8>, from: int, class: spec_fn(u8) -> bool) -> int
    decreases source.len() - from,
{
    if 0 <= from < source.len() && class(source[from]) {
        run_end(source, from + 1, class)
    } else {
        from
    }
}

/// A run starts where it is asked for, holds bytes of its class only, and
/// stops at the first byte of another class or at the end of the text.
pub proof fn lemma_run_end(source: Seq<u8>, from: int, class: spec_fn(u8) -> bool)
    ensures
        from <= run_end(source, from, class),
        from <= source.len() ==> run_end(source, from, class) <= source.len(),
        forall|i: int| from <= i < run_end(source, from, class) ==> class(#[trigger] source[i]),
        0 <= run_end(source, from, class) < source.len() ==> !class(
            source[run_end(source, from, class)],
        ),
    decreases source.len() - from,
{
    if 0 <= from < source.len() && class(source[from]) {
        lemma_run_end(source, from + 1, class);
    }
}

/// Only one offset ends a run in the way `lemma_run_end` tells.
pub proof fn lemma_run_end_is(source: Seq<u8>, from: int, class: spec_fn(u8) -> bool, end: int)
    requires
        0 <= from <= end <= source.len(),
        forall|i: int| from <= i < end ==> class(#[trigger] source[i]),
        end < source.len() ==> !class(source[end]),
    ensures
        run_end(source, from, class) == end,
    decreases end - from,
{
    if from < end {
        assert(class(source[from]));
        lemma_run_end_is(source, from + 1, class, end);
    }
}

/// `text` stands in `source` at offset `at`.
pub open spec fn matches_at(source: Seq<u8>, at: int, text: Seq<u8>) -> bool {
    &&& 0 <= at
    &&& at + text.len() <= source.len()
    &&& source.subrange(at, at + text.len()) == text
}

pub open spec fn true_text() -> Seq<u8> {
    seq![116u8, 114u8, 117u8, 101u8]
}

pub open spec fn false_text() -> Seq<u8> {
    seq![102u8, 97u8, 108u8, 115u8, 101u8]
}

pub open spec fn null_text() -> Seq<u8> {
    seq![110u8, 117u8, 108u8, 108u8]
}

/// A string: a quote, the bytes up to the next quote whatever they are (a
/// backslash escapes nothing), and that quote. The value is the bytes between.
pub open spec fn string_at(source: Seq<u8>, at: int) -> Outcome<Seq<u8>> {
    if byte_at(source, at) != QUOTE {
        Outcome::Failed { kind: ErrorKind::ExpectedDelimiter(QUOTE), position: at }
    } else {
        let close = run_end(source, at + 1, unquoted_class());
        if byte_at(source, close) != QUOTE {
            Outcome::Failed { kind: ErrorKind::ExpectedDelimiter(QUOTE), position: close }
        } else {
            Outcome::Parsed { value: source.subrange(at + 1, close), end: close + 1 }
        }
    }
}

/// A string as a value: the characters that the bytes between the quotes
/// encode.
pub open spec fn string_value_at(source: Seq<u8>, at: int) -> Outcome<JsonValue> {
    match string_at(source, at) {
        Outcome::Parsed { value, end } => Outcome::Parsed {
            value: JsonValue::String(decode_utf8(value)),
            end,
        },
        Outcome::Failed { kind, position } => Outcome::Failed { kind, position },
    }
}

/// The digit values that a run of ASCII digits writes.
pub open spec fn digit_values(text: Seq<u8>) -> Seq<u8> {
    Seq::new(text.len(), |i: int| (text[i] - DIGIT_ZERO) as u8)
}

/// A number: at most one sign, then the longest run of digits, which may be
/// empty. A `+` is read and changes nothing. A fraction or an exponent is not
/// part of the number and is left unread.
pub open spec fn number_at(source: Seq<u8>, at: int) -> Outcome<JsonValue> {
    let sign = byte_at(source, at);
    let start = if sign == MINUS || sign == PLUS {
        at + 1
    } else {
        at
    };
    let end = run_end(source, start, digit_class());
    Outcome::Parsed {
        value: JsonValue::Number {
            negative: sign == MINUS,
            magnitude: decimal_value(digit_values(source.subrange(start, end))),
        },
        end,
    }
}

/// A boolean is the text `true` or the text `false`.
pub open spec fn boolean_at(source: Seq<u8>, at: int) -> Outcome<JsonValue> {
    if matches_at(source, at, true_text()) {
        Outcome::Parsed { value: JsonValue::Boolean(true), end: at + 4 }
    } else if matches_at(source, at, false_text()) {
        Outcome::Parsed { value: JsonValue::Boolean(false), end: at + 5 }
    } else {
        Outcome::Failed { kind: ErrorKind::UnexpectedEnd, position: at }
    }
}

/// Null is read wherever it is asked for: the text `null` is passed over where
/// it stands, and nothing is passed over where it does not.
pub open spec fn null_at(source: Seq<u8>, at: int) -> Outcome<JsonValue> {
    Outcome::Parsed {
        value: JsonValue::Null,
        end: if matches_at(source, at, null_text()) {
            at + 4
        } else {
            at
        },
    }
}

/// The closing brace of an object whose members are `seen`.
pub open spec fn object_close(
    source: Seq<u8>,
    at: int,
    seen: Map<Seq<char>, JsonValue>,
) -> Outcome<JsonValue> {
    if byte_at(source, at) == CLOSE_BRACE {
        Outcome::Parsed { value: JsonValue::Object(seen), end: at + 1 }
    } else {
        Outcome::Failed { kind: ErrorKind::ExpectedDelimiter(CLOSE_BRACE), position: at }
    }
}

/// The closing bracket of an array whose elements are `seen`.
pub open spec fn array_close(source: Seq<u8>, at: int, seen: Seq<JsonValue>) -> Outcome<
    JsonValue,
> {
    if byte_at(source, at) == CLOSE_BRACKET {
        Outcome::Parsed { value: JsonValue::Array(seen), end: at + 1 }
    } else {
        Outcome::Failed { kind: ErrorKind::ExpectedDelimiter(CLOSE_BRACKET), position: at }
    }
}

/// A value: spaces, then the construct that the first byte behind them
/// announces.
pub open spec fn value_at(source: Seq<u8>, from: int) -> Outcome<JsonValue>
    decreases source.len() - from, 1int,
{
    let at = run_end(source, from, space_class());
    if !(0 <= at < source.len()) {
        Outcome::Failed { kind: ErrorKind::EndOfInput, position: at }
    } else {
        proof {
            lemma_run_end(source, from, space_class());
        }
        let first = source[at];
        if first == OPEN_BRACE {
            object_at(source, at)
        } else if first == OPEN_BRACKET {
            array_at(source, at)
        } else if first == QUOTE {
            string_value_at(source, at)
        } else if first == LOWER_T || first == LOWER_F {
            boolean_at(source, at)
        } else if first == LOWER_N {
            null_at(source, at)
        } else if first == MINUS || first == PLUS || is_digit(first) {
            number_at(source, at)
        } else {
            Outcome::Failed { kind: ErrorKind::UnexpectedToken(first), position: at }
        }
    }
}

/// An object: an opening brace, the members, a closing brace.
pub open spec fn object_at(source: Seq<u8>, at: int) -> Outcome<JsonValue>
    decreases source.len() - at, 0int,
{
    if byte_at(source, at) != OPEN_BRACE {
        Outcome::Failed { kind: ErrorKind::ExpectedDelimiter(OPEN_BRACE), position: at }
    } else {
        members_from(source, at + 1, Map::empty())
    }
}

/// The members of an object from `from` on, and its closing brace, after the
/// members in `seen` were read.
///
/// A member is spaces, a string, a colon and a value. Where a comma follows
/// it, the next is looked for; where at that place a closing brace stands, or
/// where no comma follows, the object must close. Since spaces are passed over
/// in front of a member only, a closing brace that comes after spaces is taken
/// for the start of a member and fails as one. A member replaces an earlier
/// one that has its key. (That a value ends at or behind `from` always holds,
/// see [`lemma_value_at_advances`]; it is asked here for the sake of the
/// `decreases` clause.)
pub open spec fn members_from(
    source: Seq<u8>,
    from: int,
    seen: Map<Seq<char>, JsonValue>,
) -> Outcome<JsonValue>
    decreases source.len() - from, 2int,
{
    if 0 <= from < source.len() && source[from] != CLOSE_BRACE {
        match string_at(source, run_end(source, from, space_class())) {
            Outcome::Failed { kind, position } => Outcome::Failed { kind, position },
            Outcome::Parsed { value: key, end: colon } => {
                if byte_at(source, colon) != COLON {
                    Outcome::Failed { kind: ErrorKind::ExpectedDelimiter(COLON), position: colon }
                } else {
                    proof {
                        lemma_run_end(source, from, space_class());
                        lemma_run_end(
                            source,
                            run_end(source, from, space_class()) + 1,
                            unquoted_class(),
                        );
                    }
                    match value_at(source, colon + 1) {
                        Outcome::Failed { kind, position } => Outcome::Failed { kind, position },
                        Outcome::Parsed { value, end } => {
                            let seen = seen.insert(decode_utf8(key), value);
                            if from <= end && byte_at(source, end) == COMMA {
                                members_from(source, end + 1, seen)
                            } else {
                                object_close(source, end, seen)
                            }
                        },
                    }
                }
            },
        }
    } else {
        object_close(source, from, seen)
    }
}

/// An array: an opening bracket, the elements, a closing bracket.
pub open spec fn array_at(source: Seq<u8>, at: int) -> Outcome<JsonValue>
    decreases source.len() - at, 0int,
{
    if byte_at(source, at) != OPEN_BRACKET {
        Outcome::Failed { kind: ErrorKind::ExpectedDelimiter(OPEN_BRACKET), position: at }
    } else {
        elements_from(source, at + 1, Seq::empty())
    }
}

/// The elements of an array from `from` on, and its closing bracket, after the
/// elements in `seen` were read.
///
/// An element is a value. Behind it stands the closing bracket, or a comma that
/// is not itself followed by the closing bracket, and then the next element.
/// So an array has at least one element, and no spaces stand behind an element.
/// (That a value ends at or behind `from` always holds, see
/// [`lemma_value_at_advances`]; it is asked here for the sake of the
/// `decreases` clause.)
pub open spec fn elements_from(source: Seq<u8>, from: int, seen: Seq<JsonValue>) -> Outcome<
    JsonValue,
>
    decreases source.len() - from, 2int,
{
    if !(0 <= from < source.len()) {
        array_close(source, from, seen)
    } else {
        match value_at(source, from) {
            Outcome::Failed { kind, position } => Outcome::Failed { kind, position },
            Outcome::Parsed { value, end } => {
                let seen = seen.push(value);
                if byte_at(source, end) == CLOSE_BRACKET {
                    Outcome::Parsed { value: JsonValue::Array(seen), end: end + 1 }
                } else if from <= end && byte_at(source, end) == COMMA && byte_at(source, end + 1)
                    != CLOSE_BRACKET {
                    elements_from(source, end + 1, seen)
                } else {
                    Outcome::Failed { kind: ErrorKind::UnexpectedEnd, position: end }
                }
            },
        }
    }
}

/// The offset that an outcome holds lies between `from` and `limit`.
pub open spec fn within<T>(outcome: Outcome<T>, from: int, limit: int) -> bool {
    match outcome {
        Outcome::Parsed { value, end } => from <= end <= limit,
        Outcome::Failed { kind, position } => from <= position <= limit,
    }
}

/// Reading never goes back and never passes the end of the text: a value read
/// at `from` ends at or behind `from`, within the text, and a failure shows
/// there too.
pub proof fn lemma_value_at_advances(source: Seq<u8>, from: int)
    requires
        0 <= from <= source.len(),
    ensures
        within(value_at(source, from), from, source.len() as int),
    decreases source.len() - from, 1int,
{
    lemma_run_end(source, from, space_class());
    let at = run_end(source, from, space_class());
    if 0 <= at < source.len() {
        let first = source[at];
        if first == OPEN_BRACE {
            lemma_members_from_advances(source, at + 1, Map::empty());
        } else if first == OPEN_BRACKET {
            lemma_elements_from_advances(source, at + 1, Seq::empty());
        } else if first == QUOTE {
            lemma_run_end(source, at + 1, unquoted_class());
        } else if first == MINUS || first == PLUS {
            lemma_run_end(source, at + 1, digit_class());
        } else if is_digit(first) {
            lemma_run_end(source, at, digit_class());
        }
    }
}

/// The members of an object are read forwards and within the text.
pub proof fn lemma_members_from_advances(
    source: Seq<u8>,
    from: int,
    seen: Map<Seq<char>, JsonValue>,
)
    requires
        0 <= from <= source.len(),
    ensures
        within(members_from(source, from, seen), from, source.len() as int),
    decreases source.len() - from, 2int,
{
    if 0 <= from < source.len() && source[from] != CLOSE_BRACE {
        lemma_run_end(source, from, space_class());
        let key_at = run_end(source, from, space_class());
        lemma_run_end(source, key_at + 1, unquoted_class());
        match string_at(source, key_at) {
            Outcome::Failed { kind, position } => {},
            Outcome::Parsed { value: key, end: colon } => {
                if byte_at(source, colon) == COLON {
                    lemma_value_at_advances(source, colon + 1);
                    match value_at(source, colon + 1) {
                        Outcome::Failed { kind, position } => {},
                        Outcome::Parsed { value, end } => {
                            if byte_at(source, end) == COMMA {
                                lemma_members_from_advances(
                                    source,
                                    end + 1,
                                    seen.insert(decode_utf8(key), value),
                                );
                            }
                        },
                    }
                }
            },
        }
    }
}

/// The elements of an array are read forwards and within the text.
pub proof fn lemma_elements_from_advances(source: Seq<u8>, from: int, seen: Seq<JsonValue>)
    requires
        0 <= from <= source.len(),
    ensures
        within(elements_from(source, from, seen), from, source.len() as int),
    decreases source.len() - from, 2int,
{
    if 0 <= from < source.len() {
        lemma_value_at_advances(source, from);
        match value_at(source, from) {
            Outcome::Failed { kind, position } => {},
            Outcome::Parsed { value, end } => {
                if byte_at(source, end) == COMMA && byte_at(source, end + 1) != CLOSE_BRACKET {
                    lemma_elements_from_advances(source, end + 1, seen.push(value));
                }
            },
        }
    }
}

} // verus!
