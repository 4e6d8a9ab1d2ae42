//! Owned parsing boundary for later semantic phases.
use crate::ast::{Identifier, IdentifierKind, IntegerLiteral, Program, TextLiteral};
use crate::lexer::{lex, lex_spec, utf8_scalar_at, utf8_width_at, Span, Token, TokenKind};
use crate::name::Name;
use crate::parser::{covering, error_located, parse, set_operations_written, ParseError};
use vstd::prelude::*;

verus! {

/// The characters encoded by the well-formed UTF-8 bytes `s[i..j]`.
pub open spec fn decoded_chars(s: Seq<u8>, i: int, j: int) -> Seq<char>
    decreases j - i,
{
    if i < 0 || i >= j || j > s.len() {
        Seq::empty()
    } else {
        let w = utf8_width_at(s, i);
        if w > 0 && i + w <= j {
            seq![utf8_scalar_at(s, i) as u32 as char] + decoded_chars(s, i + w, j)
        } else {
            Seq::empty()
        }
    }
}

/// The characters of `s[i..j]`, in which a doubled quote byte `q` stands for one quote.
pub open spec fn unquoted_chars(s: Seq<u8>, i: int, j: int, q: u8) -> Seq<char>
    decreases j - i,
{
    if i < 0 || i >= j || j > s.len() {
        Seq::empty()
    } else if s[i] == q && i + 1 < j && s[i + 1] == q {
        seq![q as char] + unquoted_chars(s, i + 2, j, q)
    } else {
        let w = utf8_width_at(s, i);
        if w > 0 && i + w <= j {
            seq![utf8_scalar_at(s, i) as u32 as char] + unquoted_chars(s, i + w, j, q)
        } else {
            Seq::empty()
        }
    }
}

pub open spec fn ascii_lower_byte(b: u8) -> u8 {
    if 65 <= b <= 90 {
        (b + 32) as u8
    } else {
        b
    }
}

/// The ASCII bytes `s[i..j]` as characters, upper-case letters folded to lower case.
pub open spec fn lowered_chars(s: Seq<u8>, i: int, j: int) -> Seq<char> {
    s.subrange(i, j).map_values(|b: u8| ascii_lower_byte(b) as char)
}

/// The ASCII bytes `s[i..j]` as characters.
pub open spec fn ascii_chars(s: Seq<u8>, i: int, j: int) -> Seq<char> {
    s.subrange(i, j).map_values(|b: u8| b as char)
}

/// The normalized name spelled by an identifier token of `s`.
pub open spec fn identifier_text(s: Seq<u8>, identifier: Identifier) -> Seq<char> {
    let start = identifier.span.start as int;
    let end = identifier.span.end as int;
    match identifier.kind {
        IdentifierKind::Regular => lowered_chars(s, start, end),
        IdentifierKind::Delimited => unquoted_chars(s, start + 1, end - 1, 34),
    }
}

/// The normalized name that `identifier` spells in `parsed`; empty where it
/// is not one of the program's identifier tokens.
pub open spec fn name_of(parsed: ParsedProgram, identifier: Identifier) -> Seq<char> {
    if parsed.spells(identifier) {
        identifier_text(parsed.source_bytes(), identifier)
    } else {
        Seq::empty()
    }
}

/// The spelling of integer literal `literal` in `parsed`; empty where it is
/// not one of the program's integer tokens.
pub open spec fn integer_text_of(parsed: ParsedProgram, literal: IntegerLiteral) -> Seq<char> {
    if parsed.has_token(TokenKind::IntegerLiteral, literal.span) {
        ascii_chars(parsed.source_bytes(), literal.span.start as int, literal.span.end as int)
    } else {
        Seq::empty()
    }
}

/// The value of text literal `literal` in `parsed`; empty where it is not one
/// of the program's text tokens.
pub open spec fn text_of(parsed: ParsedProgram, literal: TextLiteral) -> Seq<char> {
    if parsed.has_token(TokenKind::TextLiteral, literal.span) {
        unquoted_chars(parsed.source_bytes(), literal.span.start + 1, literal.span.end - 1, 39)
    } else {
        Seq::empty()
    }
}

/// The value of the decimal digits `digits`.
pub open spec fn decimal_value(digits: Seq<u8>) -> nat
    decreases digits.len(),
{
    if digits.len() == 0 {
        0
    } else {
        decimal_value(digits.drop_last()) * 10 + (digits.last() - 48) as nat
    }
}

pub open spec fn all_digits(bytes: Seq<u8>) -> bool {
    forall|k: int| 0 <= k < bytes.len() ==> 48 <= #[trigger] bytes[k] <= 57
}

/// The position among `count` positions that the ASCII spelling `bytes`
/// names when read as an unsigned decimal ordinal counted from one: an
/// optional `+`, then at least one digit.
pub open spec fn ordinal_position_of(bytes: Seq<u8>, count: int) -> Option<int> {
    let digits = if bytes.len() > 0 && bytes[0] == 43 {
        bytes.subrange(1, bytes.len() as int)
    } else {
        bytes
    };
    if digits.len() > 0 && all_digits(digits) && 1 <= decimal_value(digits) <= count {
        Some(decimal_value(digits) - 1)
    } else {
        None
    }
}

/// The source bytes of integer literal `literal`; empty where it is not one
/// of the program's integer tokens.
pub open spec fn integer_bytes_of(parsed: ParsedProgram, literal: IntegerLiteral) -> Seq<u8> {
    if parsed.has_token(TokenKind::IntegerLiteral, literal.span) {
        parsed.source_bytes().subrange(literal.span.start as int, literal.span.end as int)
    } else {
        Seq::empty()
    }
}

/// `String::push`: appends one character to the end of the text.
#[verifier::external_body]
pub(crate) fn push_char(text: &mut String, character: char)
    ensures
        final(text)@ == old(text)@.push(character),
{
    text.push(character)
}

/// A syntax tree paired inseparably with the UTF-8 source that its spans index.
pub struct ParsedProgram {
    bytes: Vec<u8>,
    source: String,
    syntax: Program,
    tokens: Vec<Token>,
}

impl ParsedProgram {
    #[verifier::type_invariant]
    spec fn well_formed(&self) -> bool {
        &&& lex_spec(self.bytes@) == Ok::<Seq<Token>, crate::lexer::LexError>(self.tokens@)
        &&& self.source@ == decoded_chars(self.bytes@, 0, self.bytes@.len() as int)
        &&& self.tokens@.len() > 0
        &&& self.syntax.span == covering(self.tokens@, 0, self.tokens@.len() as int)
    }

    /// The source bytes that the spans of this program index.
    pub closed spec fn source_bytes(&self) -> Seq<u8> {
        self.bytes@
    }

    /// The tokens of the source.
    pub closed spec fn source_tokens(&self) -> Seq<Token> {
        self.tokens@
    }

    pub closed spec fn spec_syntax(&self) -> Program {
        self.syntax
    }

    /// `kind` names one of the source's tokens exactly at `span`.
    pub open spec fn has_token(&self, kind: TokenKind, span: crate::lexer::Span) -> bool {
        exists|k: int|
            0 <= k < self.source_tokens().len() && #[trigger] self.source_tokens()[k] == (Token {
                kind,
                span,
            })
    }

    /// The identifier is one of the source's identifier tokens.
    pub open spec fn spells(&self, identifier: Identifier) -> bool {
        match identifier.kind {
            IdentifierKind::Regular => self.has_token(TokenKind::Identifier, identifier.span),
            IdentifierKind::Delimited => self.has_token(
                TokenKind::DelimitedIdentifier,
                identifier.span,
            ),
        }
    }

    pub fn source(&self) -> (text: &str)
        ensures
            text@ == decoded_chars(self.source_bytes(), 0, self.source_bytes().len() as int),
    {
        proof {
            use_type_invariant(self);
        }
        self.source.as_str()
    }

    pub fn syntax(&self) -> (syntax: &Program)
        ensures
            *syntax == self.spec_syntax(),
    {
        &self.syntax
    }

    pub fn into_syntax(self) -> (syntax: Program)
        ensures
            syntax == self.spec_syntax(),
    {
        self.syntax
    }

    /// Whether a token of `kind` stands in the source exactly at `span`.
    fn find_token(&self, kind: TokenKind, span: Span) -> (r: bool)
        ensures
            r == self.has_token(kind, span),
    {
        let target = Token { kind, span };
        let mut index: usize = 0;
        while index < self.tokens.len()
            invariant
                index <= self.tokens@.len(),
                forall|k: int| 0 <= k < index ==> self.tokens@[k] != target,
                target == (Token { kind, span }),
            decreases self.tokens@.len() - index,
        {
            let candidate = self.tokens[index];
            if candidate.kind == kind && candidate.span.start == span.start && candidate.span.end == span.end {
                assert(self.source_tokens()[index as int] == target);
                return true;
            }
            index = index + 1;
        }
        false
    }

    /// Decodes and normalizes an identifier from this program's syntax tree.
    ///
    /// An identifier that is not one of this program's identifier tokens
    /// names nothing: its name is empty.
    pub fn identifier_name(&self, identifier: Identifier) -> (name: Name)
        ensures
            self.spells(identifier) ==> name@ == identifier_text(self.source_bytes(), identifier),
            !self.spells(identifier) ==> name@ == Seq::<char>::empty(),
            name@ == name_of(*self, identifier),
    {
        let kind = match identifier.kind {
            IdentifierKind::Regular => TokenKind::Identifier,
            IdentifierKind::Delimited => TokenKind::DelimitedIdentifier,
        };
        if !self.find_token(kind, identifier.span) {
            return Name::default();
        }
        proof {
            use_type_invariant(self);
            lemma_token_in_bounds(self.bytes@, self.tokens@, kind, identifier.span);
        }
        let start = identifier.span.start;
        let end = identifier.span.end;
        match identifier.kind {
            IdentifierKind::Regular => Name::from_string(lowered_text(&self.bytes, start, end)),
            IdentifierKind::Delimited => {
                proof {
                    lemma_delimited_token_has_quotes(self.bytes@, self.tokens@, identifier.span);
                }
                Name::from_string(unquoted_text(&self.bytes, start + 1, end - 1, 34))
            },
        }
    }

    /// Returns the exact unsigned decimal spelling of an integer token.
    ///
    /// A literal that is not one of this program's integer tokens spells
    /// nothing: its spelling is empty.
    pub fn integer_spelling(&self, literal: IntegerLiteral) -> (spelling: String)
        ensures
            self.has_token(TokenKind::IntegerLiteral, literal.span) ==> spelling@ == ascii_chars(
                self.source_bytes(),
                literal.span.start as int,
                literal.span.end as int,
            ),
            !self.has_token(TokenKind::IntegerLiteral, literal.span) ==> spelling@
                == Seq::<char>::empty(),
            spelling@ == integer_text_of(*self, literal),
    {
        if !self.find_token(TokenKind::IntegerLiteral, literal.span) {
            return String::new();
        }
        proof {
            use_type_invariant(self);
            lemma_token_in_bounds(self.bytes@, self.tokens@, TokenKind::IntegerLiteral, literal.span);
        }
        ascii_text(&self.bytes, literal.span.start, literal.span.end)
    }

    /// Decodes a text literal from this program's syntax tree.
    ///
    /// A literal that is not one of this program's text tokens holds
    /// nothing: its value is empty.
    pub fn text_value(&self, literal: TextLiteral) -> (value: String)
        ensures
            self.has_token(TokenKind::TextLiteral, literal.span) ==> value@ == unquoted_chars(
                self.source_bytes(),
                literal.span.start + 1,
                literal.span.end - 1,
                39,
            ),
            !self.has_token(TokenKind::TextLiteral, literal.span) ==> value@ == Seq::<char>::empty(),
            value@ == text_of(*self, literal),
    {
        if !self.find_token(TokenKind::TextLiteral, literal.span) {
            return String::new();
        }
        proof {
            use_type_invariant(self);
            crate::lexer::lemma_lex_spans_are_ordered_ranges(self.bytes@);
            lemma_text_token_has_quotes(self.bytes@, self.tokens@, literal.span);
        }
        unquoted_text(&self.bytes, literal.span.start + 1, literal.span.end - 1, 39)
    }
}

impl ParsedProgram {
    /// The position, among `count` positions, that an integer literal names
    /// as an ordinal counted from one.
    pub(crate) fn ordinal_position(&self, literal: IntegerLiteral, count: usize) -> (r: Option<usize>)
        ensures
            match ordinal_position_of(integer_bytes_of(*self, literal), count as int) {
                Some(p) => r == Some(p as usize),
                None => r is None,
            },
    {
        if !self.find_token(TokenKind::IntegerLiteral, literal.span) {
            return None;
        }
        proof {
            use_type_invariant(self);
            lemma_token_in_bounds(self.bytes@, self.tokens@, TokenKind::IntegerLiteral, literal.span);
        }
        ordinal_in(&self.bytes, literal.span.start, literal.span.end, count)
    }
}

fn ordinal_in(bytes: &Vec<u8>, first: usize, end: usize, count: usize) -> (r: Option<usize>)
    requires
        first <= end <= bytes@.len(),
    ensures
        match ordinal_position_of(bytes@.subrange(first as int, end as int), count as int) {
            Some(p) => r == Some(p as usize),
            None => r is None,
        },
{
    let ghost spelling = bytes@.subrange(first as int, end as int);
    let mut start = first;
    if start < end && bytes[start] == 43 {
        start = start + 1;
    }
    let ghost digits = bytes@.subrange(start as int, end as int);
    assert(digits =~= (if spelling.len() > 0 && spelling[0] == 43 {
        spelling.subrange(1, spelling.len() as int)
    } else {
        spelling
    }));
    if start == end {
        return None;
    }
    let mut value: usize = 0;
    let mut index = start;
    while index < end
        invariant
            start <= index <= end <= bytes@.len(),
            digits == bytes@.subrange(start as int, end as int),
            spelling == bytes@.subrange(first as int, end as int),
            digits == (if spelling.len() > 0 && spelling[0] == 43 {
                spelling.subrange(1, spelling.len() as int)
            } else {
                spelling
            }),
            all_digits(digits.subrange(0, index - start)),
            value == decimal_value(digits.subrange(0, index - start)),
            value <= count,
        decreases end - index,
    {
        let byte = bytes[index];
        if byte < 48 || byte > 57 {
            assert(digits[index - start] == byte);
            assert(!all_digits(digits));
            return None;
        }
        let ghost next = digits.subrange(0, index + 1 - start);
        assert(next.drop_last() =~= digits.subrange(0, index - start));
        assert(next.last() == byte);
        let digit = (byte - 48) as usize;
        assert(decimal_value(next) == value * 10 + digit);
        if digit > count || value > (count - digit) / 10 {
            assert(value * 10 + digit > count) by (nonlinear_arith)
                requires
                    digit > count || value > (count - digit) / 10,
                    value >= 0,
            ;
            proof {
                if all_digits(digits) {
                    lemma_decimal_prefix(digits, index + 1 - start);
                }
            }
            return None;
        }
        assert(value * 10 + digit <= count) by (nonlinear_arith)
            requires
                digit <= count,
                value <= (count - digit) / 10,
        ;
        value = value * 10 + digit;
        assert(all_digits(next));
        index = index + 1;
    }
    assert(digits.subrange(0, end - start) =~= digits);
    if value == 0 {
        return None;
    }
    Some(value - 1)
}

/// Reading more digits never makes a decimal value smaller.
proof fn lemma_decimal_prefix(digits: Seq<u8>, prefix: int)
    requires
        0 <= prefix <= digits.len(),
        all_digits(digits),
    ensures
        decimal_value(digits.subrange(0, prefix)) <= decimal_value(digits),
    decreases digits.len() - prefix,
{
    if prefix < digits.len() {
        assert(all_digits(digits.drop_last()));
        lemma_decimal_prefix(digits.drop_last(), prefix);
        assert(digits.drop_last().subrange(0, prefix) =~= digits.subrange(0, prefix));
    } else {
        assert(digits.subrange(0, prefix) =~= digits);
    }
}

proof fn lemma_token_in_bounds(s: Seq<u8>, tokens: Seq<Token>, kind: TokenKind, span: Span)
    requires
        s.len() <= usize::MAX,
        lex_spec(s) == Ok::<Seq<Token>, crate::lexer::LexError>(tokens),
        exists|k: int| 0 <= k < tokens.len() && #[trigger] tokens[k] == (Token { kind, span }),
    ensures
        span.start < span.end <= s.len(),
{
    crate::lexer::lemma_lex_spans_are_ordered_ranges(s);
    let k = choose|k: int| 0 <= k < tokens.len() && #[trigger] tokens[k] == (Token { kind, span });
    assert(tokens[k].span.start < tokens[k].span.end <= s.len());
}

proof fn lemma_delimited_token_has_quotes(s: Seq<u8>, tokens: Seq<Token>, span: crate::lexer::Span)
    requires
        s.len() <= usize::MAX,
        lex_spec(s) == Ok::<Seq<Token>, crate::lexer::LexError>(tokens),
        exists|k: int|
            0 <= k < tokens.len() && #[trigger] tokens[k] == (Token {
                kind: TokenKind::DelimitedIdentifier,
                span,
            }),
    ensures
        span.start + 2 <= span.end <= s.len(),
{
    crate::lexer::lemma_lex_spans_are_ordered_ranges(s);
    crate::lexer::lemma_lex_token_shapes(s);
    let k = choose|k: int|
        0 <= k < tokens.len() && #[trigger] tokens[k] == (Token { kind: TokenKind::DelimitedIdentifier, span });
    assert(tokens[k].span.start < tokens[k].span.end <= s.len());
    assert(tokens[k].span.start + 2 <= tokens[k].span.end);
}

proof fn lemma_text_token_has_quotes(s: Seq<u8>, tokens: Seq<Token>, span: crate::lexer::Span)
    requires
        s.len() <= usize::MAX,
        lex_spec(s) == Ok::<Seq<Token>, crate::lexer::LexError>(tokens),
        exists|k: int|
            0 <= k < tokens.len() && #[trigger] tokens[k] == (Token {
                kind: TokenKind::TextLiteral,
                span,
            }),
    ensures
        span.start + 2 <= span.end <= s.len(),
{
    crate::lexer::lemma_lex_spans_are_ordered_ranges(s);
    crate::lexer::lemma_lex_token_shapes(s);
    let k = choose|k: int|
        0 <= k < tokens.len() && #[trigger] tokens[k] == (Token { kind: TokenKind::TextLiteral, span });
    assert(tokens[k].span.start < tokens[k].span.end <= s.len());
    assert(tokens[k].span.start + 2 <= tokens[k].span.end);
}

fn lowered_text(bytes: &Vec<u8>, start: usize, end: usize) -> (text: String)
    requires
        start <= end <= bytes@.len(),
    ensures
        text@ == lowered_chars(bytes@, start as int, end as int),
{
    let mut text = String::new();
    let mut index = start;
    while index < end
        invariant
            start <= index <= end <= bytes@.len(),
            text@ =~= lowered_chars(bytes@, start as int, index as int),
        decreases end - index,
    {
        let byte = bytes[index];
        let lowered = if 65 <= byte && byte <= 90 {
            byte + 32
        } else {
            byte
        };
        push_char(&mut text, lowered as char);
        assert(bytes@.subrange(start as int, index + 1) =~= bytes@.subrange(
            start as int,
            index as int,
        ).push(byte));
        index = index + 1;
    }
    text
}

fn ascii_text(bytes: &Vec<u8>, start: usize, end: usize) -> (text: String)
    requires
        start <= end <= bytes@.len(),
    ensures
        text@ == ascii_chars(bytes@, start as int, end as int),
{
    let mut text = String::new();
    let mut index = start;
    while index < end
        invariant
            start <= index <= end <= bytes@.len(),
            text@ =~= ascii_chars(bytes@, start as int, index as int),
        decreases end - index,
    {
        let byte = bytes[index];
        push_char(&mut text, byte as char);
        assert(bytes@.subrange(start as int, index + 1) =~= bytes@.subrange(
            start as int,
            index as int,
        ).push(byte));
        index = index + 1;
    }
    text
}

/// Decodes the UTF-8 character that starts at `index` and ends no later than `end`.
fn decode_char(bytes: &Vec<u8>, index: usize, end: usize) -> (r: Option<(char, usize)>)
    requires
        index < end <= bytes@.len(),
    ensures
        r matches Some((c, w)) ==> w == utf8_width_at(bytes@, index as int) && w > 0 && index + w
            <= end && c == utf8_scalar_at(bytes@, index as int) as u32 as char,
        r is None ==> !(utf8_width_at(bytes@, index as int) > 0 && index + utf8_width_at(
            bytes@,
            index as int,
        ) <= end),
{
    let width = crate::lexer::utf8_width(bytes.as_slice(), index);
    if width == 0 || width > end - index {
        return None;
    }
    let (_, value) = crate::lexer::decode_scalar(bytes.as_slice(), index);
    match crate::lexer::char_from_u32(value) {
        Some(character) => {
            proof {
                vstd::utf8::char_u32_cast(character, value);
            }
            Some((character, width))
        },
        None => None,
    }
}

fn unquoted_text(bytes: &Vec<u8>, start: usize, end: usize, quote: u8) -> (text: String)
    requires
        start <= end <= bytes@.len(),
    ensures
        text@ == unquoted_chars(bytes@, start as int, end as int, quote),
{
    let mut text = String::new();
    let mut index = start;
    while index < end
        invariant
            start <= index <= end <= bytes@.len(),
            unquoted_chars(bytes@, start as int, end as int, quote) =~= text@ + unquoted_chars(
                bytes@,
                index as int,
                end as int,
                quote,
            ),
        decreases end - index,
    {
        if bytes[index] == quote && index + 1 < end && bytes[index + 1] == quote {
            push_char(&mut text, quote as char);
            index = index + 2;
        } else {
            match decode_char(bytes, index, end) {
                Some((character, width)) => {
                    push_char(&mut text, character);
                    index = index + width;
                },
                None => {
                    assert(unquoted_chars(bytes@, index as int, end as int, quote) =~= Seq::empty());
                    assert(text@ + Seq::<char>::empty() =~= text@);
                    return text;
                },
            }
        }
    }
    assert(text@ + Seq::<char>::empty() =~= text@);
    text
}

fn decoded_text(bytes: &Vec<u8>) -> (text: String)
    ensures
        text@ == decoded_chars(bytes@, 0, bytes@.len() as int),
{
    let end = bytes.len();
    let mut text = String::new();
    let mut index: usize = 0;
    while index < end
        invariant
            index <= end == bytes@.len(),
            decoded_chars(bytes@, 0, end as int) =~= text@ + decoded_chars(
                bytes@,
                index as int,
                end as int,
            ),
        decreases end - index,
    {
        match decode_char(bytes, index, end) {
            Some((character, width)) => {
                push_char(&mut text, character);
                index = index + width;
            },
            None => {
                assert(decoded_chars(bytes@, index as int, end as int) =~= Seq::empty());
                assert(text@ + Seq::<char>::empty() =~= text@);
                return text;
            },
        }
    }
    assert(text@ + Seq::<char>::empty() =~= text@);
    text
}

fn copy_bytes(source: &[u8]) -> (bytes: Vec<u8>)
    ensures
        bytes@ == source@,
{
    let mut bytes: Vec<u8> = Vec::new();
    let mut index: usize = 0;
    while index < source.len()
        invariant
            index <= source@.len(),
            bytes@ =~= source@.subrange(0, index as int),
        decreases source@.len() - index,
    {
        bytes.push(source[index]);
        index = index + 1;
    }
    assert(source@.subrange(0, source@.len() as int) =~= source@);
    bytes
}

/// Parses one complete program and retains an owned copy of its source text.
pub fn parse_owned(source: &[u8]) -> (r: Result<ParsedProgram, ParseError>)
    ensures
        match lex_spec(source@) {
            Err(e) => r == Err::<ParsedProgram, ParseError>(ParseError::Lexical(e)),
            Ok(tokens) => match r {
                Ok(program) => program.source_bytes() == source@ && program.source_tokens() == tokens
                    && program.spec_syntax().span == covering(tokens, 0, tokens.len() as int)
                    && set_operations_written(tokens, program.spec_syntax().query.body),
                Err(ParseError::Syntactic(e)) => error_located(tokens, source@.len() as usize, e),
                Err(ParseError::Lexical(_)) => false,
            },
        },
{
    let syntax = parse(source)?;
    let tokens = match lex(source) {
        Ok(tokens) => tokens,
        Err(error) => {
            return Err(ParseError::Lexical(error));
        },
    };
    let bytes = copy_bytes(source);
    let text = decoded_text(&bytes);
    Ok(ParsedProgram { bytes, source: text, syntax, tokens })
}

} // verus!
