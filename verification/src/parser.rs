use crate::document::{
    lemma_document_reads, stands_at, supported, text_of, unquoted, value_of_document, Document,
};
use crate::error::{ErrorKind, JsonError};
use crate::grammar::{
    array_at, array_close, boolean_at, byte_at, digit_class, digit_values, elements_from,
    false_text, is_digit, is_space, lemma_run_end_is, matches_at, members_from, null_at,
    null_text, number_at, object_at, object_close, run_end, space_class, string_at,
    string_value_at, true_text, unquoted_class, value_at, Outcome, CLOSE_BRACE, CLOSE_BRACKET,
    COLON, COMMA, DIGIT_NINE, DIGIT_ZERO, LOWER_F, LOWER_N, LOWER_T, MINUS, NEWLINE,
    OPEN_BRACE, OPEN_BRACKET, PLUS, QUOTE, SPACE, TAB,
};
use crate::text::{lemma_text_without_quote, slice_between};
use crate::value::{
    distinct_keys, insert_member, members_of, values_of, well_formed, JsonNumber, JsonObject,
    JsonValue,
};
use crate::writing::writable;
use vstd::prelude::*;
use vstd::string::StringSliceAdditionalSpecFns;
use vstd::utf8::{decode_utf8, encode_utf8};

verus! {

/// A reader over one text: the text and the offset of the next byte to read.
/// The offset never passes the end of the text and never goes back.
pub struct JsonParser {
    source: String,
    cursor: usize,
}

/// What a [`JsonParser`] stands for: the bytes of its text and its offset in
/// them.
pub struct ParserState {
    pub source: Seq<u8>,
    pub cursor: int,
}

impl View for JsonParser {
    type V = ParserState;

    closed spec fn view(&self) -> ParserState {
        ParserState { source: encode_utf8(self.source@), cursor: self.cursor as int }
    }
}

impl JsonParser {
    #[verifier::type_invariant]
    spec fn in_bounds(self) -> bool {
        self.cursor <= encode_utf8(self.source@).len() <= usize::MAX
    }

    /// A reader at the start of `input`.
    pub fn new(input: String) -> (parser: JsonParser)
        ensures
            parser@.source == encode_utf8(input@),
            parser@.cursor == 0,
    {
        let length = input.as_str().as_bytes().len();
        assert(length == encode_utf8(input@).len());
        JsonParser { source: input, cursor: 0 }
    }

    /// The offset of the next byte to read.
    pub fn cursor(&self) -> (offset: usize)
        ensures
            offset == self@.cursor,
            offset <= self@.source.len(),
    {
        proof {
            use_type_invariant(self);
        }
        self.cursor
    }

    /// Whether every byte has been read.
    pub fn is_eof(&self) -> (eof: bool)
        ensures
            eof == (self@.cursor >= self@.source.len()),
    {
        self.cursor >= self.source.as_str().as_bytes().len()
    }

    /// The next byte, or `0` at the end of the text.
    pub fn current(&self) -> (byte: u8)
        ensures
            byte == byte_at(self@.source, self@.cursor),
    {
        let bytes = self.source.as_str().as_bytes();
        if self.cursor < bytes.len() {
            bytes[self.cursor]
        } else {
            0
        }
    }

    /// The byte behind the next one, or `0` where the text has none.
    pub fn peek(&self) -> (byte: u8)
        ensures
            byte == byte_at(self@.source, self@.cursor + 1),
    {
        let bytes = self.source.as_str().as_bytes();
        if self.cursor < bytes.len() && self.cursor + 1 < bytes.len() {
            bytes[self.cursor + 1]
        } else {
            0
        }
    }

    /// Passes over `it` if it stands at the offset, and over nothing if it
    /// does not.
    pub fn try_consume(&mut self, it: &str) -> (matched: bool)
        ensures
            final(self)@.source == old(self)@.source,
            matched == matches_at(old(self)@.source, old(self)@.cursor, it.spec_bytes()),
            final(self)@.cursor == if matched {
                old(self)@.cursor + it.spec_bytes().len()
            } else {
                old(self)@.cursor
            },
    {
        proof {
            use_type_invariant(&*self);
        }
        let bytes = self.source.as_str().as_bytes();
        let pattern = it.as_bytes();
        let length = pattern.len();
        if length > bytes.len() - self.cursor {
            return false;
        }
        let mut i: usize = 0;
        while i < length
            invariant
                *self == *old(self),
                bytes@ == self@.source,
                bytes@.len() <= usize::MAX,
                i <= length,
                length == pattern@.len(),
                pattern@ == it.spec_bytes(),
                self.cursor + length <= bytes@.len(),
                forall|j: int| 0 <= j < i ==> bytes@[self.cursor + j] == pattern@[j],
            decreases length - i,
        {
            if bytes[self.cursor + i] != pattern[i] {
                assert(bytes@.subrange(self.cursor as int, self.cursor + length)[i as int]
                    != pattern@[i as int]);
                return false;
            }
            i += 1;
        }
        assert(bytes@.subrange(self.cursor as int, self.cursor + length) =~= pattern@);
        self.cursor += length;
        true
    }

    /// Passes over the next byte if it is `ch`. At the end of the text there
    /// is no next byte, and nothing matches, not even `0`.
    pub fn try_consume_ch(&mut self, ch: u8) -> (matched: bool)
        ensures
            final(self)@.source == old(self)@.source,
            matched == (old(self)@.cursor < old(self)@.source.len() && old(self)@.source[old(
                self,
            )@.cursor] == ch),
            final(self)@.cursor == if matched {
                old(self)@.cursor + 1
            } else {
                old(self)@.cursor
            },
    {
        proof {
            use_type_invariant(&*self);
        }
        let same = !self.is_eof() && self.current() == ch;
        if same {
            self.cursor += 1;
        }
        same
    }

    /// Passes over the spaces, tabs and newlines that stand at the offset.
    pub fn trim_left(&mut self)
        ensures
            final(self)@.source == old(self)@.source,
            final(self)@.cursor == run_end(old(self)@.source, old(self)@.cursor, space_class()),
            old(self)@.cursor <= final(self)@.cursor <= old(self)@.source.len(),
            forall|i: int|
                old(self)@.cursor <= i < final(self)@.cursor ==> is_space(
                    #[trigger] old(self)@.source[i],
                ),
            !is_space(byte_at(old(self)@.source, final(self)@.cursor)),
    {
        proof {
            use_type_invariant(&*self);
        }
        while !self.is_eof() && (self.current() == SPACE || self.current() == TAB || self.current()
            == NEWLINE)
            invariant
                self@.source == old(self)@.source,
                old(self)@.cursor <= self@.cursor <= self@.source.len() <= usize::MAX,
                forall|i: int|
                    old(self)@.cursor <= i < self@.cursor ==> is_space(#[trigger] self@.source[i]),
            decreases self@.source.len() - self@.cursor,
        {
            self.cursor += 1;
        }
        proof {
            lemma_run_end_is(old(self)@.source, old(self)@.cursor, space_class(), self@.cursor);
        }
    }

    /// Reads a string: a quote, the bytes up to the next quote, and that
    /// quote. The bytes between the two are returned as they stand.
    pub fn lex_string(&mut self) -> (result: Result<String, JsonError>)
        ensures
            final(self)@.source == old(self)@.source,
            old(self)@.cursor <= final(self)@.cursor,
            match string_at(old(self)@.source, old(self)@.cursor) {
                Outcome::Parsed { value, end } => {
                    &&& result matches Ok(text)
                    &&& text@ == decode_utf8(value)
                    &&& encode_utf8(text@) == value
                    &&& unquoted(text@)
                    &&& final(self)@.cursor == end
                },
                Outcome::Failed { kind, position } => {
                    &&& result matches Err(error)
                    &&& error.kind == kind
                    &&& error.position == position
                },
            },
    {
        proof {
            use_type_invariant(&*self);
        }
        if !self.try_consume_ch(QUOTE) {
            return Err(JsonError::new(ErrorKind::ExpectedDelimiter(QUOTE), self.cursor));
        }
        let start = self.cursor;
        while !self.is_eof() && self.current() != QUOTE
            invariant
                self@.source == old(self)@.source,
                start <= self@.cursor <= self@.source.len() <= usize::MAX,
                forall|i: int| start <= i < self@.cursor ==> #[trigger] self@.source[i] != QUOTE,
            decreases self@.source.len() - self@.cursor,
        {
            self.cursor += 1;
        }
        proof {
            lemma_run_end_is(self@.source, start as int, unquoted_class(), self@.cursor);
        }
        let close = self.cursor;
        if !self.try_consume_ch(QUOTE) {
            return Err(JsonError::new(ErrorKind::ExpectedDelimiter(QUOTE), self.cursor));
        }
        let text = slice_between(self.source.as_str(), start, close);
        proof {
            lemma_text_without_quote(text@);
        }
        Ok(text)
    }

    /// Reads an object: `{`, members that commas separate, `}`. A member is
    /// a string, a colon and a value; of two members with one key the later
    /// stays.
    pub fn parse_object(&mut self) -> (result: Result<JsonObject, JsonError>)
        ensures
            final(self)@.source == old(self)@.source,
            old(self)@.cursor <= final(self)@.cursor,
            reports(result, final(self)@.cursor, object_at(old(self)@.source, old(self)@.cursor)),
        decreases old(self)@.source.len() - old(self)@.cursor, 0int,
    {
        proof {
            use_type_invariant(&*self);
        }
        if !self.try_consume_ch(OPEN_BRACE) {
            return Err(JsonError::new(ErrorKind::ExpectedDelimiter(OPEN_BRACE), self.cursor));
        }
        let mut children: Vec<(String, JsonObject)> = Vec::new();
        while !self.is_eof() && self.current() != CLOSE_BRACE
            invariant_except_break
                members_from(self@.source, self@.cursor, members_of(children@)) == object_at(
                    old(self)@.source,
                    old(self)@.cursor,
                ),
            invariant
                self@.source == old(self)@.source,
                old(self)@.cursor < self@.cursor <= self@.source.len(),
                distinct_keys(children@),
                forall|i: int|
                    0 <= i < children@.len() ==> {
                        &&& unquoted((#[trigger] children@[i]).0@)
                        &&& well_formed(children@[i].1)
                        &&& writable(children@[i].1)
                    },
            ensures
                object_close(self@.source, self@.cursor, members_of(children@)) == object_at(
                    old(self)@.source,
                    old(self)@.cursor,
                ),
            decreases self@.source.len() - self@.cursor,
        {
            self.trim_left();
            let key = match self.lex_string() {
                Ok(key) => key,
                Err(error) => {
                    return Err(error);
                },
            };
            if !self.try_consume_ch(COLON) {
                return Err(JsonError::new(ErrorKind::ExpectedDelimiter(COLON), self.cursor));
            }
            let value = match self.parse() {
                Ok(value) => value,
                Err(error) => {
                    return Err(error);
                },
            };
            insert_member(&mut children, key, value);
            proof {
                use_type_invariant(&*self);
            }
            if !self.try_consume_ch(COMMA) {
                break ;
            }
        }
        if !self.try_consume_ch(CLOSE_BRACE) {
            return Err(JsonError::new(ErrorKind::ExpectedDelimiter(CLOSE_BRACE), self.cursor));
        }
        Ok(JsonObject::Object(children))
    }

    /// Reads an array: `[`, one value or more that commas separate, `]`. A
    /// comma right in front of the `]` is refused.
    pub fn parse_array(&mut self) -> (result: Result<JsonObject, JsonError>)
        ensures
            final(self)@.source == old(self)@.source,
            old(self)@.cursor <= final(self)@.cursor,
            reports(result, final(self)@.cursor, array_at(old(self)@.source, old(self)@.cursor)),
        decreases old(self)@.source.len() - old(self)@.cursor, 0int,
    {
        proof {
            use_type_invariant(&*self);
        }
        if !self.try_consume_ch(OPEN_BRACKET) {
            return Err(JsonError::new(ErrorKind::ExpectedDelimiter(OPEN_BRACKET), self.cursor));
        }
        let mut children: Vec<JsonObject> = Vec::new();
        while !self.is_eof()
            invariant_except_break
                elements_from(self@.source, self@.cursor, values_of(children@)) == array_at(
                    old(self)@.source,
                    old(self)@.cursor,
                ),
            invariant
                self@.source == old(self)@.source,
                old(self)@.cursor < self@.cursor <= self@.source.len() <= usize::MAX,
                forall|i: int|
                    0 <= i < children@.len() ==> well_formed(#[trigger] children@[i]) && writable(
                        children@[i],
                    ),
            ensures
                array_close(self@.source, self@.cursor, values_of(children@)) == array_at(
                    old(self)@.source,
                    old(self)@.cursor,
                ),
                self@.cursor < self@.source.len() ==> children@.len() >= 1,
            decreases self@.source.len() - self@.cursor,
        {
            let value = match self.parse() {
                Ok(value) => value,
                Err(error) => {
                    return Err(error);
                },
            };
            let ghost before = children@;
            children.push(value);
            proof {
                assert(children@.drop_last() =~= before);
            }
            if self.current() == CLOSE_BRACKET {
                break ;
            }
            if self.current() == COMMA && self.peek() != CLOSE_BRACKET {
                self.cursor += 1;
                continue ;
            }
            return Err(JsonError::new(ErrorKind::UnexpectedEnd, self.cursor));
        }
        if !self.try_consume_ch(CLOSE_BRACKET) {
            return Err(JsonError::new(ErrorKind::ExpectedDelimiter(CLOSE_BRACKET), self.cursor));
        }
        Ok(JsonObject::Array(children))
    }

    /// Reads a string as a value.
    pub fn parse_string(&mut self) -> (result: Result<JsonObject, JsonError>)
        ensures
            final(self)@.source == old(self)@.source,
            old(self)@.cursor <= final(self)@.cursor,
            reports(
                result,
                final(self)@.cursor,
                string_value_at(old(self)@.source, old(self)@.cursor),
            ),
    {
        match self.lex_string() {
            Ok(text) => Ok(JsonObject::String(text)),
            Err(error) => Err(error),
        }
    }

    /// Reads `true` or `false`.
    pub fn parse_boolean(&mut self) -> (result: Result<JsonObject, JsonError>)
        ensures
            final(self)@.source == old(self)@.source,
            old(self)@.cursor <= final(self)@.cursor,
            reports(result, final(self)@.cursor, boolean_at(old(self)@.source, old(self)@.cursor)),
    {
        proof {
            lemma_literal_bytes();
        }
        if self.try_consume("true") {
            return Ok(JsonObject::Boolean(true));
        } else if self.try_consume("false") {
            return Ok(JsonObject::Boolean(false));
        }
        Err(JsonError::new(ErrorKind::UnexpectedEnd, self.cursor))
    }

    /// Reads a number: at most one sign and the digits behind it. It reads
    /// no fraction and no exponent, and never fails.
    pub fn parse_number(&mut self) -> (number: JsonObject)
        ensures
            final(self)@.source == old(self)@.source,
            old(self)@.cursor <= final(self)@.cursor,
            reports(
                Ok(number),
                final(self)@.cursor,
                number_at(old(self)@.source, old(self)@.cursor),
            ),
    {
        proof {
            use_type_invariant(&*self);
        }
        let mut negative = false;
        if self.try_consume_ch(MINUS) {
            negative = true;
        } else if self.try_consume_ch(PLUS) {
            negative = false;
        }
        let start = self.cursor;
        let mut digits: Vec<u8> = Vec::new();
        while !self.is_eof() && DIGIT_ZERO <= self.current() && self.current() <= DIGIT_NINE
            invariant
                self@.source == old(self)@.source,
                start <= self@.cursor <= self@.source.len() <= usize::MAX,
                forall|i: int| start <= i < self@.cursor ==> is_digit(#[trigger] self@.source[i]),
                digits@ == digit_values(self@.source.subrange(start as int, self@.cursor)),
            decreases self@.source.len() - self@.cursor,
        {
            digits.push(self.current() - DIGIT_ZERO);
            self.cursor += 1;
            assert(digits@ =~= digit_values(self@.source.subrange(start as int, self@.cursor)));
        }
        proof {
            lemma_run_end_is(self@.source, start as int, digit_class(), self@.cursor);
        }
        JsonObject::Number(JsonNumber { negative, digits })
    }

    /// Reads `null`. Where the text at the offset is not `null`, nothing is
    /// read and the result is null all the same.
    pub fn parse_null(&mut self) -> (null: JsonObject)
        ensures
            final(self)@.source == old(self)@.source,
            old(self)@.cursor <= final(self)@.cursor,
            reports(Ok(null), final(self)@.cursor, null_at(old(self)@.source, old(self)@.cursor)),
    {
        proof {
            lemma_literal_bytes();
        }
        self.try_consume("null");
        JsonObject::Null
    }

    /// Reads one value: the spaces in front of it, then an object, an array,
    /// a string, a boolean, null or a number, as its first byte tells. What
    /// stands behind the value is left unread.
    ///
    /// The outcome is that of [`value_at`] in every case. In particular,
    /// wherever a supported document stands at the offset, the result is a
    /// tree of the value that the document writes, and the offset is left
    /// behind the document.
    pub fn parse(&mut self) -> (result: Result<JsonObject, JsonError>)
        ensures
            final(self)@.source == old(self)@.source,
            old(self)@.cursor <= final(self)@.cursor,
            reports(result, final(self)@.cursor, value_at(old(self)@.source, old(self)@.cursor)),
            forall|document: Document|
                supported(document) && #[trigger] stands_at(
                    old(self)@.source,
                    old(self)@.cursor,
                    document,
                ) ==> {
                    &&& result matches Ok(tree)
                    &&& tree@ == value_of_document(document)
                    &&& tree.wf()
                    &&& final(self)@.cursor == old(self)@.cursor + text_of(document).len()
                },
        decreases old(self)@.source.len() - old(self)@.cursor, 1int,
    {
        self.trim_left();
        let result = if self.is_eof() {
            Err(JsonError::new(ErrorKind::EndOfInput, self.cursor))
        } else {
            let current = self.current();
            if current == OPEN_BRACE {
                self.parse_object()
            } else if current == OPEN_BRACKET {
                self.parse_array()
            } else if current == QUOTE {
                self.parse_string()
            } else if current == LOWER_T || current == LOWER_F {
                self.parse_boolean()
            } else if current == LOWER_N {
                Ok(self.parse_null())
            } else if current == MINUS || current == PLUS || (DIGIT_ZERO <= current && current
                <= DIGIT_NINE) {
                Ok(self.parse_number())
            } else {
                Err(JsonError::new(ErrorKind::UnexpectedToken(current), self.cursor))
            }
        };
        proof {
            assert forall|document: Document|
                supported(document) && #[trigger] stands_at(
                    old(self)@.source,
                    old(self)@.cursor,
                    document,
                ) implies value_at(old(self)@.source, old(self)@.cursor) == (Outcome::Parsed {
                value: value_of_document(document),
                end: old(self)@.cursor + text_of(document).len(),
            }) by {
                lemma_document_reads(document, old(self)@.source, old(self)@.cursor);
            }
        }
        result
    }
}

/// Whether a result and the offset it left agree with an outcome of the
/// grammar: on success the tree stands for the value read, is well formed,
/// holds nothing that could not be written and read again, and the offset is
/// behind the value; on failure the error has the kind and the offset of the
/// failure.
pub open spec fn reports(
    result: Result<JsonObject, JsonError>,
    cursor: int,
    expected: Outcome<JsonValue>,
) -> bool {
    match expected {
        Outcome::Parsed { value, end } => {
            &&& result matches Ok(tree)
            &&& tree@ == value
            &&& tree.wf()
            &&& writable(tree)
            &&& cursor == end
        },
        Outcome::Failed { kind, position } => {
            &&& result matches Err(error)
            &&& error.kind == kind
            &&& error.position == position
        },
    }
}

/// The bytes of the three literals.
proof fn lemma_literal_bytes()
    ensures
        "true".spec_bytes() == true_text(),
        "false".spec_bytes() == false_text(),
        "null".spec_bytes() == null_text(),
{
    broadcast use vstd::string::is_ascii_spec_bytes;

    reveal_strlit("true");
    reveal_strlit("false");
    reveal_strlit("null");
    assert(vstd::string::is_ascii("true"));
    assert(vstd::string::is_ascii("false"));
    assert(vstd::string::is_ascii("null"));
    assert("true".spec_bytes() =~= true_text());
    assert("false".spec_bytes() =~= false_text());
    assert("null".spec_bytes() =~= null_text());
}

} // verus!
