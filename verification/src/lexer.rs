//! ShapeSQL lexical analysis over UTF-8 source bytes.
use vstd::prelude::*;

verus! {

/// A half-open byte range in the UTF-8 source text.
#[derive(Clone, Copy, Debug, PartialEq, Eq, Structural)]
pub struct Span {
    pub start: usize,
    pub end: usize,
}

impl Span {
    pub fn new(start: usize, end: usize) -> (span: Self)
        ensures
            span == (Span { start, end }),
    {
        Span { start, end }
    }
}

/// A lexical token recognized by ShapeSQL.
#[derive(Clone, Copy, Debug, PartialEq, Eq, Structural)]
pub struct Token {
    pub kind: TokenKind,
    pub span: Span,
}

/// The token classes and reserved keywords defined by ShapeSQL 0.1.
#[derive(Clone, Copy, Debug, PartialEq, Eq, Structural)]
pub enum TokenKind {
    Identifier,
    DelimitedIdentifier,
    IntegerLiteral,
    TextLiteral,
    All,
    And,
    As,
    Asc,
    Boolean,
    BoolAnd,
    BoolOr,
    By,
    Case,
    Cast,
    Count,
    Cross,
    DenseRank,
    Desc,
    Distinct,
    Else,
    End,
    Except,
    Exists,
    False,
    First,
    From,
    Full,
    Group,
    Having,
    In,
    Inner,
    Int64,
    Intersect,
    Is,
    Join,
    Last,
    Left,
    Limit,
    Max,
    Min,
    Not,
    Null,
    Nulls,
    Offset,
    On,
    Or,
    Order,
    Outer,
    Over,
    Partition,
    Rank,
    Right,
    RowNumber,
    Select,
    Sum,
    Text,
    Then,
    True,
    Union,
    When,
    Where,
    With,
    LeftParenthesis,
    RightParenthesis,
    Comma,
    Dot,
    Semicolon,
    Plus,
    Minus,
    Star,
    Slash,
    Percent,
    Equal,
    NotEqual,
    Less,
    LessEqual,
    Greater,
    GreaterEqual,
    Concatenate,
}

/// A reason that source text cannot be divided into ShapeSQL tokens.
#[derive(Clone, Copy, Debug, PartialEq, Eq, Structural)]
pub enum LexErrorKind {
    InvalidUtf8,
    NullCharacter,
    UnexpectedCharacter(char),
    UnterminatedBlockComment,
    UnterminatedDelimitedIdentifier,
    EmptyDelimitedIdentifier,
    UnterminatedTextLiteral,
}

/// A lexical error and the byte range that caused it.
#[derive(Clone, Copy, Debug, PartialEq, Eq, Structural)]
pub struct LexError {
    pub kind: LexErrorKind,
    pub span: Span,
}

impl LexError {
    pub fn new(kind: LexErrorKind, start: usize, end: usize) -> (error: Self)
        ensures
            error == lex_error(kind, start as int, end as int),
    {
        LexError { kind, span: Span { start, end } }
    }

    /// A human-readable description of the error.
    /// The error as one line of text.
    pub fn describe(&self) -> (text: String)
        ensures
            text@ == lex_error_text(self.kind),
    {
        match self.kind {
            LexErrorKind::InvalidUtf8 => String::from_str("source is not valid UTF-8"),
            LexErrorKind::NullCharacter => String::from_str("source contains U+0000"),
            LexErrorKind::UnexpectedCharacter(character) => {
                let mut text = String::from_str("unexpected character ");
                let spelled = char_debug(character);
                text.append(spelled.as_str());
                text
            },
            LexErrorKind::UnterminatedBlockComment => String::from_str("unterminated block comment"),
            LexErrorKind::UnterminatedDelimitedIdentifier => String::from_str(
                "unterminated delimited identifier",
            ),
            LexErrorKind::EmptyDelimitedIdentifier => String::from_str("delimited identifier is empty"),
            LexErrorKind::UnterminatedTextLiteral => String::from_str("unterminated text literal"),
        }
    }
}

/// The `Debug` spelling of a character, as std writes it: the character in
/// single quotes, escaped as `char::escape_debug` escapes it.
pub uninterp spec fn char_debug_text(character: char) -> Seq<char>;

/// The `Debug` spelling of `character`, from std's `Debug` for `char`; the
/// contract names the result and states no more of it.
#[verifier::external_body]
fn char_debug(character: char) -> (text: String)
    ensures
        text@ == char_debug_text(character),
{
    format!("{character:?}")
}

/// The text of a lexical error.
pub open spec fn lex_error_text(kind: LexErrorKind) -> Seq<char> {
    match kind {
        LexErrorKind::InvalidUtf8 => "source is not valid UTF-8"@,
        LexErrorKind::NullCharacter => "source contains U+0000"@,
        LexErrorKind::UnexpectedCharacter(character) => "unexpected character "@ + char_debug_text(
            character,
        ),
        LexErrorKind::UnterminatedBlockComment => "unterminated block comment"@,
        LexErrorKind::UnterminatedDelimitedIdentifier => "unterminated delimited identifier"@,
        LexErrorKind::EmptyDelimitedIdentifier => "delimited identifier is empty"@,
        LexErrorKind::UnterminatedTextLiteral => "unterminated text literal"@,
    }
}

/// The derived `Debug` spelling of a token kind.
pub open spec fn token_kind_debug(kind: TokenKind) -> Seq<char> {
    match kind {
        TokenKind::Identifier => "Identifier"@,
        TokenKind::DelimitedIdentifier => "DelimitedIdentifier"@,
        TokenKind::IntegerLiteral => "IntegerLiteral"@,
        TokenKind::TextLiteral => "TextLiteral"@,
        TokenKind::All => "All"@,
        TokenKind::And => "And"@,
        TokenKind::As => "As"@,
        TokenKind::Asc => "Asc"@,
        TokenKind::Boolean => "Boolean"@,
        TokenKind::BoolAnd => "BoolAnd"@,
        TokenKind::BoolOr => "BoolOr"@,
        TokenKind::By => "By"@,
        TokenKind::Case => "Case"@,
        TokenKind::Cast => "Cast"@,
        TokenKind::Count => "Count"@,
        TokenKind::Cross => "Cross"@,
        TokenKind::DenseRank => "DenseRank"@,
        TokenKind::Desc => "Desc"@,
        TokenKind::Distinct => "Distinct"@,
        TokenKind::Else => "Else"@,
        TokenKind::End => "End"@,
        TokenKind::Except => "Except"@,
        TokenKind::Exists => "Exists"@,
        TokenKind::False => "False"@,
        TokenKind::First => "First"@,
        TokenKind::From => "From"@,
        TokenKind::Full => "Full"@,
        TokenKind::Group => "Group"@,
        TokenKind::Having => "Having"@,
        TokenKind::In => "In"@,
        TokenKind::Inner => "Inner"@,
        TokenKind::Int64 => "Int64"@,
        TokenKind::Intersect => "Intersect"@,
        TokenKind::Is => "Is"@,
        TokenKind::Join => "Join"@,
        TokenKind::Last => "Last"@,
        TokenKind::Left => "Left"@,
        TokenKind::Limit => "Limit"@,
        TokenKind::Max => "Max"@,
        TokenKind::Min => "Min"@,
        TokenKind::Not => "Not"@,
        TokenKind::Null => "Null"@,
        TokenKind::Nulls => "Nulls"@,
        TokenKind::Offset => "Offset"@,
        TokenKind::On => "On"@,
        TokenKind::Or => "Or"@,
        TokenKind::Order => "Order"@,
        TokenKind::Outer => "Outer"@,
        TokenKind::Over => "Over"@,
        TokenKind::Partition => "Partition"@,
        TokenKind::Rank => "Rank"@,
        TokenKind::Right => "Right"@,
        TokenKind::RowNumber => "RowNumber"@,
        TokenKind::Select => "Select"@,
        TokenKind::Sum => "Sum"@,
        TokenKind::Text => "Text"@,
        TokenKind::Then => "Then"@,
        TokenKind::True => "True"@,
        TokenKind::Union => "Union"@,
        TokenKind::When => "When"@,
        TokenKind::Where => "Where"@,
        TokenKind::With => "With"@,
        TokenKind::LeftParenthesis => "LeftParenthesis"@,
        TokenKind::RightParenthesis => "RightParenthesis"@,
        TokenKind::Comma => "Comma"@,
        TokenKind::Dot => "Dot"@,
        TokenKind::Semicolon => "Semicolon"@,
        TokenKind::Plus => "Plus"@,
        TokenKind::Minus => "Minus"@,
        TokenKind::Star => "Star"@,
        TokenKind::Slash => "Slash"@,
        TokenKind::Percent => "Percent"@,
        TokenKind::Equal => "Equal"@,
        TokenKind::NotEqual => "NotEqual"@,
        TokenKind::Less => "Less"@,
        TokenKind::LessEqual => "LessEqual"@,
        TokenKind::Greater => "Greater"@,
        TokenKind::GreaterEqual => "GreaterEqual"@,
        TokenKind::Concatenate => "Concatenate"@,
    }
}

pub(crate) fn token_kind_debug_text(kind: TokenKind) -> (text: &'static str)
    ensures
        text@ == token_kind_debug(kind),
{
    match kind {
        TokenKind::Identifier => "Identifier",
        TokenKind::DelimitedIdentifier => "DelimitedIdentifier",
        TokenKind::IntegerLiteral => "IntegerLiteral",
        TokenKind::TextLiteral => "TextLiteral",
        TokenKind::All => "All",
        TokenKind::And => "And",
        TokenKind::As => "As",
        TokenKind::Asc => "Asc",
        TokenKind::Boolean => "Boolean",
        TokenKind::BoolAnd => "BoolAnd",
        TokenKind::BoolOr => "BoolOr",
        TokenKind::By => "By",
        TokenKind::Case => "Case",
        TokenKind::Cast => "Cast",
        TokenKind::Count => "Count",
        TokenKind::Cross => "Cross",
        TokenKind::DenseRank => "DenseRank",
        TokenKind::Desc => "Desc",
        TokenKind::Distinct => "Distinct",
        TokenKind::Else => "Else",
        TokenKind::End => "End",
        TokenKind::Except => "Except",
        TokenKind::Exists => "Exists",
        TokenKind::False => "False",
        TokenKind::First => "First",
        TokenKind::From => "From",
        TokenKind::Full => "Full",
        TokenKind::Group => "Group",
        TokenKind::Having => "Having",
        TokenKind::In => "In",
        TokenKind::Inner => "Inner",
        TokenKind::Int64 => "Int64",
        TokenKind::Intersect => "Intersect",
        TokenKind::Is => "Is",
        TokenKind::Join => "Join",
        TokenKind::Last => "Last",
        TokenKind::Left => "Left",
        TokenKind::Limit => "Limit",
        TokenKind::Max => "Max",
        TokenKind::Min => "Min",
        TokenKind::Not => "Not",
        TokenKind::Null => "Null",
        TokenKind::Nulls => "Nulls",
        TokenKind::Offset => "Offset",
        TokenKind::On => "On",
        TokenKind::Or => "Or",
        TokenKind::Order => "Order",
        TokenKind::Outer => "Outer",
        TokenKind::Over => "Over",
        TokenKind::Partition => "Partition",
        TokenKind::Rank => "Rank",
        TokenKind::Right => "Right",
        TokenKind::RowNumber => "RowNumber",
        TokenKind::Select => "Select",
        TokenKind::Sum => "Sum",
        TokenKind::Text => "Text",
        TokenKind::Then => "Then",
        TokenKind::True => "True",
        TokenKind::Union => "Union",
        TokenKind::When => "When",
        TokenKind::Where => "Where",
        TokenKind::With => "With",
        TokenKind::LeftParenthesis => "LeftParenthesis",
        TokenKind::RightParenthesis => "RightParenthesis",
        TokenKind::Comma => "Comma",
        TokenKind::Dot => "Dot",
        TokenKind::Semicolon => "Semicolon",
        TokenKind::Plus => "Plus",
        TokenKind::Minus => "Minus",
        TokenKind::Star => "Star",
        TokenKind::Slash => "Slash",
        TokenKind::Percent => "Percent",
        TokenKind::Equal => "Equal",
        TokenKind::NotEqual => "NotEqual",
        TokenKind::Less => "Less",
        TokenKind::LessEqual => "LessEqual",
        TokenKind::Greater => "Greater",
        TokenKind::GreaterEqual => "GreaterEqual",
        TokenKind::Concatenate => "Concatenate",
    }
}

// ---------------------------------------------------------------------------
// Byte classes
// ---------------------------------------------------------------------------

pub open spec fn lex_error(kind: LexErrorKind, start: int, end: int) -> LexError {
    LexError { kind, span: Span { start: start as usize, end: end as usize } }
}

pub open spec fn token(kind: TokenKind, start: int, end: int) -> Token {
    Token { kind, span: Span { start: start as usize, end: end as usize } }
}

/// Tab, line feed, form feed, carriage return, and space.
pub open spec fn is_whitespace_byte(b: u8) -> bool {
    b == 9 || b == 10 || b == 12 || b == 13 || b == 32
}

pub open spec fn is_ascii_letter(b: u8) -> bool {
    (65 <= b <= 90) || (97 <= b <= 122)
}

pub open spec fn is_digit_byte(b: u8) -> bool {
    48 <= b <= 57
}

pub open spec fn is_identifier_start_byte(b: u8) -> bool {
    is_ascii_letter(b) || b == 95
}

pub open spec fn is_identifier_continue_byte(b: u8) -> bool {
    is_identifier_start_byte(b) || is_digit_byte(b)
}

pub open spec fn ascii_upper_byte(b: u8) -> u8 {
    if 97 <= b <= 122 {
        (b - 32) as u8
    } else {
        b
    }
}

pub open spec fn ascii_upper(w: Seq<u8>) -> Seq<u8> {
    w.map_values(|b: u8| ascii_upper_byte(b))
}

pub open spec fn byte_is(s: Seq<u8>, i: int, b: u8) -> bool {
    0 <= i < s.len() && s[i] == b
}

// ---------------------------------------------------------------------------
// UTF-8 well-formedness
// ---------------------------------------------------------------------------

pub open spec fn is_continuation_byte(b: u8) -> bool {
    0x80 <= b <= 0xBF
}

/// Lower bound of the second byte of a sequence introduced by `b0`.
pub open spec fn second_byte_low(b0: u8) -> u8 {
    if b0 == 0xE0 {
        0xA0
    } else if b0 == 0xF0 {
        0x90
    } else {
        0x80
    }
}

/// Upper bound of the second byte of a sequence introduced by `b0`.
pub open spec fn second_byte_high(b0: u8) -> u8 {
    if b0 == 0xED {
        0x9F
    } else if b0 == 0xF4 {
        0x8F
    } else {
        0xBF
    }
}

/// The number of bytes that a lead byte announces, or 0 for a byte that cannot lead.
pub open spec fn utf8_lead_width(b0: u8) -> int {
    if b0 <= 0x7F {
        1
    } else if 0xC2 <= b0 <= 0xDF {
        2
    } else if 0xE0 <= b0 <= 0xEF {
        3
    } else if 0xF0 <= b0 <= 0xF4 {
        4
    } else {
        0
    }
}

/// The length of the well-formed UTF-8 sequence that starts at `i`, or 0 if none does.
pub open spec fn utf8_width_at(s: Seq<u8>, i: int) -> int {
    let n = s.len() as int;
    let b0 = s[i];
    let w = utf8_lead_width(b0);
    if w == 1 {
        1
    } else if w >= 2 && i + w <= n && second_byte_low(b0) <= s[i + 1] <= second_byte_high(b0)
        && (w >= 3 ==> is_continuation_byte(s[i + 2])) && (w >= 4 ==> is_continuation_byte(
        s[i + 3],
    )) {
        w
    } else {
        0
    }
}

/// The first position at or after `i`, walking sequence by sequence, where no
/// well-formed sequence starts; `s.len()` if there is none.
pub open spec fn utf8_error_position(s: Seq<u8>, i: int) -> int
    decreases s.len() - i,
{
    if i < 0 || i >= s.len() {
        s.len() as int
    } else if utf8_width_at(s, i) == 0 {
        i
    } else {
        utf8_error_position(s, i + utf8_width_at(s, i))
    }
}

pub open spec fn well_formed_utf8(s: Seq<u8>) -> bool {
    utf8_error_position(s, 0) == s.len()
}

/// The length of the ill-formed subsequence at `i` (`None` when the input ends
/// inside an incomplete but otherwise valid sequence).
pub open spec fn utf8_error_length(s: Seq<u8>, i: int) -> Option<int> {
    let n = s.len() as int;
    let b0 = s[i];
    let w = utf8_lead_width(b0);
    if w == 0 {
        Some(1)
    } else if i + 1 >= n {
        None
    } else if !(second_byte_low(b0) <= s[i + 1] <= second_byte_high(b0)) {
        Some(1)
    } else if w == 2 {
        Some(1)
    } else if i + 2 >= n {
        None
    } else if !is_continuation_byte(s[i + 2]) {
        Some(2)
    } else if w == 3 {
        Some(2)
    } else if i + 3 >= n {
        None
    } else {
        Some(3)
    }
}

/// The scalar value encoded by the well-formed sequence at `i`.
pub open spec fn utf8_scalar_at(s: Seq<u8>, i: int) -> int {
    let w = utf8_width_at(s, i);
    if w == 1 {
        s[i] as int
    } else if w == 2 {
        (s[i] - 0xC0) * 64 + (s[i + 1] - 0x80)
    } else if w == 3 {
        (s[i] - 0xE0) * 4096 + (s[i + 1] - 0x80) * 64 + (s[i + 2] - 0x80)
    } else {
        (s[i] - 0xF0) * 262144 + (s[i + 1] - 0x80) * 4096 + (s[i + 2] - 0x80) * 64 + (s[i + 3]
            - 0x80)
    }
}

/// The position of the first U+0000 byte at or after `i`, or `s.len()`.
pub open spec fn first_null_position(s: Seq<u8>, i: int) -> int
    decreases s.len() - i,
{
    if i < 0 || i >= s.len() {
        s.len() as int
    } else if s[i] == 0 {
        i
    } else {
        first_null_position(s, i + 1)
    }
}

/// Bytes skipped before lexing: the initial byte-order mark, if present.
pub open spec fn initial_offset(s: Seq<u8>) -> int {
    if s.len() >= 3 && s[0] == 0xEF && s[1] == 0xBB && s[2] == 0xBF {
        3
    } else {
        0
    }
}

// ---------------------------------------------------------------------------
// Separators and tokens
// ---------------------------------------------------------------------------

/// End of a line comment whose text starts at `i`: the first line break or the end of source.
pub open spec fn line_comment_end(s: Seq<u8>, i: int) -> int
    decreases s.len() - i,
{
    if i < 0 || i >= s.len() || s[i] == 10 || s[i] == 13 {
        if i < 0 { 0 } else { i }
    } else {
        line_comment_end(s, i + 1)
    }
}

/// The position just after the first `*/` at or after `i`, if any.
pub open spec fn block_comment_end(s: Seq<u8>, i: int) -> Option<int>
    decreases s.len() - i,
{
    if i < 0 || i >= s.len() {
        None
    } else if byte_is(s, i, 42) && byte_is(s, i + 1, 47) {
        Some(i + 2)
    } else {
        block_comment_end(s, i + 1)
    }
}

/// Skips whitespace, line comments, and block comments starting at `i`.
pub open spec fn skip_separators_from(s: Seq<u8>, i: int) -> Result<int, LexError>
    decreases s.len() - i,
{
    if i < 0 || i >= s.len() {
        Ok(i)
    } else if is_whitespace_byte(s[i]) {
        skip_separators_from(s, i + 1)
    } else if byte_is(s, i, 45) && byte_is(s, i + 1, 45) {
        let e = line_comment_end(s, i + 2);
        proof {
            lemma_line_comment_end_bounds(s, i + 2);
        }
        skip_separators_from(s, e)
    } else if byte_is(s, i, 47) && byte_is(s, i + 1, 42) {
        match block_comment_end(s, i + 2) {
            None => Err(lex_error(LexErrorKind::UnterminatedBlockComment, i, s.len() as int)),
            Some(e) => {
                proof {
                    lemma_block_comment_end_bounds(s, i + 2);
                }
                skip_separators_from(s, e)
            },
        }
    } else {
        Ok(i)
    }
}

/// End of the maximal run of identifier bytes starting at `i`.
pub open spec fn identifier_end(s: Seq<u8>, i: int) -> int
    decreases s.len() - i,
{
    if i < 0 || i >= s.len() || !is_identifier_continue_byte(s[i]) {
        if i < 0 { 0 } else { i }
    } else {
        identifier_end(s, i + 1)
    }
}

/// End of the maximal run of decimal digits starting at `i`.
pub open spec fn digits_end(s: Seq<u8>, i: int) -> int
    decreases s.len() - i,
{
    if i < 0 || i >= s.len() || !is_digit_byte(s[i]) {
        if i < 0 { 0 } else { i }
    } else {
        digits_end(s, i + 1)
    }
}

/// The reserved keyword spelled by an upper-cased word, if any.
pub open spec fn keyword_kind(w: Seq<u8>) -> Option<TokenKind> {
    if w =~= seq![65, 76, 76] { Some(TokenKind::All) } else
    if w =~= seq![65, 78, 68] { Some(TokenKind::And) } else
    if w =~= seq![65, 83] { Some(TokenKind::As) } else
    if w =~= seq![65, 83, 67] { Some(TokenKind::Asc) } else
    if w =~= seq![66, 79, 79, 76, 69, 65, 78] { Some(TokenKind::Boolean) } else
    if w =~= seq![66, 79, 79, 76, 95, 65, 78, 68] { Some(TokenKind::BoolAnd) } else
    if w =~= seq![66, 79, 79, 76, 95, 79, 82] { Some(TokenKind::BoolOr) } else
    if w =~= seq![66, 89] { Some(TokenKind::By) } else
    if w =~= seq![67, 65, 83, 69] { Some(TokenKind::Case) } else
    if w =~= seq![67, 65, 83, 84] { Some(TokenKind::Cast) } else
    if w =~= seq![67, 79, 85, 78, 84] { Some(TokenKind::Count) } else
    if w =~= seq![67, 82, 79, 83, 83] { Some(TokenKind::Cross) } else
    if w =~= seq![68, 69, 78, 83, 69, 95, 82, 65, 78, 75] { Some(TokenKind::DenseRank) } else
    if w =~= seq![68, 69, 83, 67] { Some(TokenKind::Desc) } else
    if w =~= seq![68, 73, 83, 84, 73, 78, 67, 84] { Some(TokenKind::Distinct) } else
    if w =~= seq![69, 76, 83, 69] { Some(TokenKind::Else) } else
    if w =~= seq![69, 78, 68] { Some(TokenKind::End) } else
    if w =~= seq![69, 88, 67, 69, 80, 84] { Some(TokenKind::Except) } else
    if w =~= seq![69, 88, 73, 83, 84, 83] { Some(TokenKind::Exists) } else
    if w =~= seq![70, 65, 76, 83, 69] { Some(TokenKind::False) } else
    if w =~= seq![70, 73, 82, 83, 84] { Some(TokenKind::First) } else
    if w =~= seq![70, 82, 79, 77] { Some(TokenKind::From) } else
    if w =~= seq![70, 85, 76, 76] { Some(TokenKind::Full) } else
    if w =~= seq![71, 82, 79, 85, 80] { Some(TokenKind::Group) } else
    if w =~= seq![72, 65, 86, 73, 78, 71] { Some(TokenKind::Having) } else
    if w =~= seq![73, 78] { Some(TokenKind::In) } else
    if w =~= seq![73, 78, 78, 69, 82] { Some(TokenKind::Inner) } else
    if w =~= seq![73, 78, 84, 54, 52] { Some(TokenKind::Int64) } else
    if w =~= seq![73, 78, 84, 69, 82, 83, 69, 67, 84] { Some(TokenKind::Intersect) } else
    if w =~= seq![73, 83] { Some(TokenKind::Is) } else
    if w =~= seq![74, 79, 73, 78] { Some(TokenKind::Join) } else
    if w =~= seq![76, 65, 83, 84] { Some(TokenKind::Last) } else
    if w =~= seq![76, 69, 70, 84] { Some(TokenKind::Left) } else
    if w =~= seq![76, 73, 77, 73, 84] { Some(TokenKind::Limit) } else
    if w =~= seq![77, 65, 88] { Some(TokenKind::Max) } else
    if w =~= seq![77, 73, 78] { Some(TokenKind::Min) } else
    if w =~= seq![78, 79, 84] { Some(TokenKind::Not) } else
    if w =~= seq![78, 85, 76, 76] { Some(TokenKind::Null) } else
    if w =~= seq![78, 85, 76, 76, 83] { Some(TokenKind::Nulls) } else
    if w =~= seq![79, 70, 70, 83, 69, 84] { Some(TokenKind::Offset) } else
    if w =~= seq![79, 78] { Some(TokenKind::On) } else
    if w =~= seq![79, 82] { Some(TokenKind::Or) } else
    if w =~= seq![79, 82, 68, 69, 82] { Some(TokenKind::Order) } else
    if w =~= seq![79, 85, 84, 69, 82] { Some(TokenKind::Outer) } else
    if w =~= seq![79, 86, 69, 82] { Some(TokenKind::Over) } else
    if w =~= seq![80, 65, 82, 84, 73, 84, 73, 79, 78] { Some(TokenKind::Partition) } else
    if w =~= seq![82, 65, 78, 75] { Some(TokenKind::Rank) } else
    if w =~= seq![82, 73, 71, 72, 84] { Some(TokenKind::Right) } else
    if w =~= seq![82, 79, 87, 95, 78, 85, 77, 66, 69, 82] { Some(TokenKind::RowNumber) } else
    if w =~= seq![83, 69, 76, 69, 67, 84] { Some(TokenKind::Select) } else
    if w =~= seq![83, 85, 77] { Some(TokenKind::Sum) } else
    if w =~= seq![84, 69, 88, 84] { Some(TokenKind::Text) } else
    if w =~= seq![84, 72, 69, 78] { Some(TokenKind::Then) } else
    if w =~= seq![84, 82, 85, 69] { Some(TokenKind::True) } else
    if w =~= seq![85, 78, 73, 79, 78] { Some(TokenKind::Union) } else
    if w =~= seq![87, 72, 69, 78] { Some(TokenKind::When) } else
    if w =~= seq![87, 72, 69, 82, 69] { Some(TokenKind::Where) } else
    if w =~= seq![87, 73, 84, 72] { Some(TokenKind::With) } else
    { None }
}

/// The kind of a token spelled by an identifier-shaped word.
pub open spec fn word_kind(w: Seq<u8>) -> TokenKind {
    match keyword_kind(ascii_upper(w)) {
        Some(kind) => kind,
        None => TokenKind::Identifier,
    }
}

/// Scans the body of a quoted token after its opening quote byte `q`, where a
/// doubled quote stands for one quote. Returns the end of the token, or `None`
/// when the source ends first; `has_value` records whether any content was seen.
pub open spec fn quoted_end(s: Seq<u8>, i: int, q: u8, has_value: bool) -> Option<(int, bool)>
    decreases s.len() - i,
{
    if i < 0 || i >= s.len() {
        None
    } else if s[i] == q {
        if byte_is(s, i + 1, q) {
            quoted_end(s, i + 2, q, true)
        } else {
            Some((i + 1, has_value))
        }
    } else {
        quoted_end(s, i + 1, q, true)
    }
}

pub open spec fn single_symbol_kind(b: u8) -> Option<TokenKind> {
    if b == 40 {
        Some(TokenKind::LeftParenthesis)
    } else if b == 41 {
        Some(TokenKind::RightParenthesis)
    } else if b == 44 {
        Some(TokenKind::Comma)
    } else if b == 46 {
        Some(TokenKind::Dot)
    } else if b == 59 {
        Some(TokenKind::Semicolon)
    } else if b == 43 {
        Some(TokenKind::Plus)
    } else if b == 45 {
        Some(TokenKind::Minus)
    } else if b == 42 {
        Some(TokenKind::Star)
    } else if b == 47 {
        Some(TokenKind::Slash)
    } else if b == 37 {
        Some(TokenKind::Percent)
    } else if b == 61 {
        Some(TokenKind::Equal)
    } else {
        None
    }
}

/// The token (or lexical error) that starts at `i`, using longest match.
pub open spec fn token_at(s: Seq<u8>, i: int) -> Result<Token, LexError> {
    let b = s[i];
    if is_identifier_start_byte(b) {
        let e = identifier_end(s, i + 1);
        Ok(token(word_kind(s.subrange(i, e)), i, e))
    } else if is_digit_byte(b) {
        Ok(token(TokenKind::IntegerLiteral, i, digits_end(s, i + 1)))
    } else if b == 34 {
        match quoted_end(s, i + 1, 34, false) {
            None => Err(
                lex_error(LexErrorKind::UnterminatedDelimitedIdentifier, i, s.len() as int),
            ),
            Some((e, has_value)) => if has_value {
                Ok(token(TokenKind::DelimitedIdentifier, i, e))
            } else {
                Err(lex_error(LexErrorKind::EmptyDelimitedIdentifier, i, e))
            },
        }
    } else if b == 39 {
        match quoted_end(s, i + 1, 39, false) {
            None => Err(lex_error(LexErrorKind::UnterminatedTextLiteral, i, s.len() as int)),
            Some((e, _)) => Ok(token(TokenKind::TextLiteral, i, e)),
        }
    } else if single_symbol_kind(b) is Some {
        Ok(token(single_symbol_kind(b).unwrap(), i, i + 1))
    } else if b == 60 {
        if byte_is(s, i + 1, 62) {
            Ok(token(TokenKind::NotEqual, i, i + 2))
        } else if byte_is(s, i + 1, 61) {
            Ok(token(TokenKind::LessEqual, i, i + 2))
        } else {
            Ok(token(TokenKind::Less, i, i + 1))
        }
    } else if b == 62 {
        if byte_is(s, i + 1, 61) {
            Ok(token(TokenKind::GreaterEqual, i, i + 2))
        } else {
            Ok(token(TokenKind::Greater, i, i + 1))
        }
    } else if b == 124 && byte_is(s, i + 1, 124) {
        Ok(token(TokenKind::Concatenate, i, i + 2))
    } else {
        Err(
            lex_error(
                LexErrorKind::UnexpectedCharacter(utf8_scalar_at(s, i) as u32 as char),
                i,
                i + utf8_width_at(s, i),
            ),
        )
    }
}

pub open spec fn prepend_tokens(t: Token, rest: Result<Seq<Token>, LexError>) -> Result<
    Seq<Token>,
    LexError,
> {
    match rest {
        Ok(ts) => Ok(seq![t] + ts),
        Err(e) => Err(e),
    }
}

/// Divides the source from offset `i` into tokens.
pub open spec fn tokens_from(s: Seq<u8>, i: int) -> Result<Seq<Token>, LexError>
    decreases s.len() - i,
{
    if i < 0 || i > s.len() || s.len() > usize::MAX {
        Ok(seq![])
    } else {
        match skip_separators_from(s, i) {
            Err(e) => Err(e),
            Ok(j) => if j >= s.len() {
                Ok(seq![])
            } else {
                match token_at(s, j) {
                    Err(e) => Err(e),
                    Ok(t) => {
                        proof {
                            lemma_skip_separators_bounds(s, i);
                            lemma_token_at_bounds(s, j);
                        }
                        prepend_tokens(t, tokens_from(s, t.span.end as int))
                    },
                }
            },
        }
    }
}

pub proof fn lemma_line_comment_end_bounds(s: Seq<u8>, i: int)
    requires
        0 <= i <= s.len(),
    ensures
        i <= line_comment_end(s, i) <= s.len(),
    decreases s.len() - i,
{
    if i < s.len() && s[i] != 10 && s[i] != 13 {
        lemma_line_comment_end_bounds(s, i + 1);
    }
}

pub proof fn lemma_block_comment_end_bounds(s: Seq<u8>, i: int)
    requires
        0 <= i,
    ensures
        block_comment_end(s, i) matches Some(e) ==> i + 2 <= e <= s.len(),
    decreases s.len() - i,
{
    if i < s.len() && !(byte_is(s, i, 42) && byte_is(s, i + 1, 47)) {
        lemma_block_comment_end_bounds(s, i + 1);
    }
}

pub proof fn lemma_identifier_end_bounds(s: Seq<u8>, i: int)
    requires
        0 <= i <= s.len(),
    ensures
        i <= identifier_end(s, i) <= s.len(),
    decreases s.len() - i,
{
    if i < s.len() && is_identifier_continue_byte(s[i]) {
        lemma_identifier_end_bounds(s, i + 1);
    }
}

pub proof fn lemma_digits_end_bounds(s: Seq<u8>, i: int)
    requires
        0 <= i <= s.len(),
    ensures
        i <= digits_end(s, i) <= s.len(),
    decreases s.len() - i,
{
    if i < s.len() && is_digit_byte(s[i]) {
        lemma_digits_end_bounds(s, i + 1);
    }
}

pub proof fn lemma_quoted_end_bounds(s: Seq<u8>, i: int, q: u8, has_value: bool)
    requires
        0 <= i,
    ensures
        quoted_end(s, i, q, has_value) matches Some((e, _)) ==> i + 1 <= e <= s.len(),
    decreases s.len() - i,
{
    if 0 <= i < s.len() {
        if s[i] == q {
            if byte_is(s, i + 1, q) {
                lemma_quoted_end_bounds(s, i + 2, q, true);
            }
        } else {
            lemma_quoted_end_bounds(s, i + 1, q, true);
        }
    }
}

pub proof fn lemma_skip_separators_bounds(s: Seq<u8>, i: int)
    requires
        0 <= i <= s.len() <= usize::MAX,
    ensures
        skip_separators_from(s, i) matches Ok(j) ==> i <= j <= s.len(),
        skip_separators_from(s, i) matches Err(e) ==> i <= e.span.start < e.span.end
            <= s.len(),
    decreases s.len() - i,
{
    if i < s.len() {
        if is_whitespace_byte(s[i]) {
            lemma_skip_separators_bounds(s, i + 1);
        } else if byte_is(s, i, 45) && byte_is(s, i + 1, 45) {
            lemma_line_comment_end_bounds(s, i + 2);
            lemma_skip_separators_bounds(s, line_comment_end(s, i + 2));
        } else if byte_is(s, i, 47) && byte_is(s, i + 1, 42) {
            lemma_block_comment_end_bounds(s, i + 2);
            if let Some(e) = block_comment_end(s, i + 2) {
                lemma_skip_separators_bounds(s, e);
            }
        }
    }
}

pub proof fn lemma_utf8_width_bounds(s: Seq<u8>, i: int)
    requires
        0 <= i < s.len(),
    ensures
        0 <= utf8_width_at(s, i) <= 4,
        i + utf8_width_at(s, i) <= s.len(),
{
}

pub proof fn lemma_token_at_bounds(s: Seq<u8>, i: int)
    requires
        0 <= i < s.len() <= usize::MAX,
    ensures
        token_at(s, i) matches Ok(t) ==> t.span.start == i && i < t.span.end <= s.len(),
        token_at(s, i) matches Err(e) ==> e.span.start == i && i <= e.span.end <= s.len(),
{
    lemma_identifier_end_bounds(s, i + 1);
    lemma_digits_end_bounds(s, i + 1);
    lemma_quoted_end_bounds(s, i + 1, 34, false);
    lemma_quoted_end_bounds(s, i + 1, 39, false);
    lemma_utf8_width_bounds(s, i);
}

pub proof fn lemma_utf8_error_position_bound(s: Seq<u8>, i: int)
    requires
        0 <= i,
    ensures
        utf8_error_position(s, i) <= s.len(),
        i <= s.len() ==> i <= utf8_error_position(s, i),
    decreases s.len() - i,
{
    if i < s.len() && utf8_width_at(s, i) != 0 {
        lemma_utf8_error_position_bound(s, i + utf8_width_at(s, i));
    }
}

/// Tokens are ordered, non-empty, non-overlapping half-open byte ranges within `[from, s.len()]`.
pub open spec fn tokens_well_placed(s: Seq<u8>, from: int, ts: Seq<Token>) -> bool {
    &&& forall|k: int|
        0 <= k < ts.len() ==> from <= #[trigger] ts[k].span.start < ts[k].span.end <= s.len()
    &&& forall|k: int|
        0 <= k < ts.len() - 1 ==> #[trigger] ts[k].span.end <= ts[k + 1].span.start
}

proof fn lemma_tokens_from_well_placed(s: Seq<u8>, i: int)
    requires
        0 <= i <= s.len() <= usize::MAX,
    ensures
        tokens_from(s, i) matches Ok(ts) ==> tokens_well_placed(s, i, ts),
    decreases s.len() - i,
{
    lemma_skip_separators_bounds(s, i);
    if let Ok(j) = skip_separators_from(s, i) {
        if j < s.len() {
            lemma_token_at_bounds(s, j);
            if let Ok(t) = token_at(s, j) {
                let e = t.span.end as int;
                lemma_tokens_from_well_placed(s, e);
                if let Ok(rest) = tokens_from(s, e) {
                    let ts = seq![t] + rest;
                    assert forall|k: int| 0 <= k < ts.len() - 1 implies #[trigger] ts[k].span.end
                        <= ts[k + 1].span.start by {
                        if k > 0 {
                            assert(ts[k] == rest[k - 1]);
                            assert(ts[k + 1] == rest[k]);
                        } else {
                            assert(ts[1] == rest[0]);
                        }
                    }
                    assert forall|k: int| 0 <= k < ts.len() implies i <= #[trigger] ts[k].span.start
                        < ts[k].span.end <= s.len() by {
                        if k > 0 {
                            assert(ts[k] == rest[k - 1]);
                        }
                    }
                }
            }
        }
    }
}

/// Lexing yields tokens whose spans are ordered, non-empty, non-overlapping
/// half-open byte ranges of the source.
pub proof fn lemma_lex_spans_are_ordered_ranges(source: Seq<u8>)
    requires
        source.len() <= usize::MAX,
    ensures
        lex_spec(source) matches Ok(ts) ==> tokens_well_placed(source, 0, ts),
{
    lemma_tokens_from_well_placed(source, initial_offset(source));
}

/// Quoted tokens (delimited identifiers and text literals) span at least their two quotes.
pub open spec fn quoted_tokens_have_quotes(ts: Seq<Token>) -> bool {
    forall|k: int|
        0 <= k < ts.len() && (ts[k].kind == TokenKind::DelimitedIdentifier || ts[k].kind
            == TokenKind::TextLiteral) ==> #[trigger] ts[k].span.start + 2 <= ts[k].span.end
}

proof fn lemma_tokens_from_shapes(s: Seq<u8>, i: int)
    requires
        0 <= i <= s.len() <= usize::MAX,
    ensures
        tokens_from(s, i) matches Ok(ts) ==> quoted_tokens_have_quotes(ts),
    decreases s.len() - i,
{
    lemma_skip_separators_bounds(s, i);
    if let Ok(j) = skip_separators_from(s, i) {
        if j < s.len() {
            lemma_token_at_bounds(s, j);
            lemma_quoted_end_bounds(s, j + 1, 34, false);
            lemma_quoted_end_bounds(s, j + 1, 39, false);
            if let Ok(t) = token_at(s, j) {
                let e = t.span.end as int;
                lemma_tokens_from_shapes(s, e);
                if let Ok(rest) = tokens_from(s, e) {
                    let ts = seq![t] + rest;
                    assert forall|k: int|
                        0 <= k < ts.len() && (ts[k].kind == TokenKind::DelimitedIdentifier
                            || ts[k].kind == TokenKind::TextLiteral) implies #[trigger] ts[k].span.start
                        + 2 <= ts[k].span.end by {
                        if k > 0 {
                            assert(ts[k] == rest[k - 1]);
                        }
                    }
                }
            }
        }
    }
}

/// Every delimited identifier and text literal token spans at least its two quotes.
pub proof fn lemma_lex_token_shapes(source: Seq<u8>)
    requires
        source.len() <= usize::MAX,
    ensures
        lex_spec(source) matches Ok(ts) ==> quoted_tokens_have_quotes(ts),
{
    lemma_tokens_from_shapes(source, initial_offset(source));
}

/// The complete lexical meaning of a source text.
pub open spec fn lex_spec(s: Seq<u8>) -> Result<Seq<Token>, LexError> {
    let invalid = utf8_error_position(s, 0);
    let null = first_null_position(s, 0);
    if invalid < s.len() {
        let end = match utf8_error_length(s, invalid) {
            Some(length) => invalid + length,
            None => invalid + 1,
        };
        Err(lex_error(LexErrorKind::InvalidUtf8, invalid, end))
    } else if null < s.len() {
        Err(lex_error(LexErrorKind::NullCharacter, null, null + 1))
    } else {
        tokens_from(s, initial_offset(s))
    }
}

// ---------------------------------------------------------------------------
// Lemmas relating source positions to UTF-8 sequence boundaries
// ---------------------------------------------------------------------------

/// A position from which scanning may start: the beginning of the source, just
/// after the initial byte-order mark, or just after an ASCII byte.
pub open spec fn scan_position(s: Seq<u8>, i: int) -> bool {
    i == 0 || i == initial_offset(s) || (0 < i <= s.len() && s[i - 1] < 0x80)
}

proof fn lemma_boundary_walk(s: Seq<u8>, k: int, i: int)
    requires
        0 <= k <= i < s.len(),
        utf8_error_position(s, k) == s.len(),
        k == i || s[i - 1] < 0x80,
    ensures
        utf8_width_at(s, i) > 0,
    decreases i - k,
{
    if k < i {
        let w = utf8_width_at(s, k);
        if k + w <= i {
            lemma_boundary_walk(s, k + w, i);
        } else {
            assert(s[i - 1] < 0x80);
            if i - 1 == k {
                assert(w == 1);
            } else {
                assert(is_continuation_byte(s[i - 1]) || (second_byte_low(s[k])
                    <= s[i - 1] <= second_byte_high(s[k])));
            }
        }
    }
}

/// In well-formed source, a well-formed sequence starts at every scan position.
pub proof fn lemma_scan_position_is_boundary(s: Seq<u8>, i: int)
    requires
        well_formed_utf8(s),
        0 <= i < s.len(),
        scan_position(s, i),
    ensures
        utf8_width_at(s, i) > 0,
{
    if i == 0 {
        lemma_boundary_walk(s, 0, 0);
    } else if i == initial_offset(s) && i == 3 {
        assert(utf8_width_at(s, 0) == 3);
        assert(utf8_error_position(s, 0) == utf8_error_position(s, 3));
        lemma_boundary_walk(s, 3, 3);
    } else {
        lemma_boundary_walk(s, 0, i);
    }
}

pub proof fn lemma_line_comment_end_stop(s: Seq<u8>, i: int)
    requires
        0 <= i <= s.len(),
    ensures
        line_comment_end(s, i) < s.len() ==> (s[line_comment_end(s, i)] == 10 || s[line_comment_end(s, i)] == 13),
    decreases s.len() - i,
{
    if i < s.len() && s[i] != 10 && s[i] != 13 {
        lemma_line_comment_end_stop(s, i + 1);
    }
}

pub proof fn lemma_block_comment_end_slash(s: Seq<u8>, i: int)
    requires
        0 <= i,
    ensures
        block_comment_end(s, i) matches Some(e) ==> s[e - 1] == 47,
    decreases s.len() - i,
{
    if i < s.len() && !(byte_is(s, i, 42) && byte_is(s, i + 1, 47)) {
        lemma_block_comment_end_slash(s, i + 1);
    }
}

/// Separators end at a scan position.
pub proof fn lemma_skip_separators_scan_position(s: Seq<u8>, i: int)
    requires
        0 <= i <= s.len() <= usize::MAX,
    ensures
        skip_separators_from(s, i) matches Ok(j) ==> j < s.len() ==> (j == i || (0 < j && s[j
            - 1] < 0x80)),
    decreases s.len() - i,
{
    if i < s.len() {
        if is_whitespace_byte(s[i]) {
            lemma_skip_separators_scan_position(s, i + 1);
            assert(s[i] < 0x80);
        } else if byte_is(s, i, 45) && byte_is(s, i + 1, 45) {
            let e = line_comment_end(s, i + 2);
            lemma_line_comment_end_bounds(s, i + 2);
            lemma_line_comment_end_stop(s, i + 2);
            lemma_skip_separators_scan_position(s, e);
            lemma_skip_separators_bounds(s, e);
            if e < s.len() {
                assert(is_whitespace_byte(s[e]));
                lemma_skip_separators_scan_position(s, e + 1);
                lemma_skip_separators_bounds(s, e + 1);
                assert(s[e] < 0x80);
            }
        } else if byte_is(s, i, 47) && byte_is(s, i + 1, 42) {
            lemma_block_comment_end_bounds(s, i + 2);
            lemma_block_comment_end_slash(s, i + 2);
            if let Some(e) = block_comment_end(s, i + 2) {
                lemma_skip_separators_scan_position(s, e);
            }
        }
    }
}

pub proof fn lemma_identifier_end_ascii(s: Seq<u8>, i: int)
    requires
        0 < i <= s.len(),
        s[i - 1] < 0x80,
    ensures
        s[identifier_end(s, i) - 1] < 0x80,
    decreases s.len() - i,
{
    if i < s.len() && is_identifier_continue_byte(s[i]) {
        lemma_identifier_end_ascii(s, i + 1);
    }
}

pub proof fn lemma_digits_end_ascii(s: Seq<u8>, i: int)
    requires
        0 < i <= s.len(),
        s[i - 1] < 0x80,
    ensures
        s[digits_end(s, i) - 1] < 0x80,
    decreases s.len() - i,
{
    if i < s.len() && is_digit_byte(s[i]) {
        lemma_digits_end_ascii(s, i + 1);
    }
}

pub proof fn lemma_quoted_end_ascii(s: Seq<u8>, i: int, q: u8, has_value: bool)
    requires
        0 <= i,
        q < 0x80,
    ensures
        quoted_end(s, i, q, has_value) matches Some((e, _)) ==> s[e - 1] == q,
    decreases s.len() - i,
{
    if 0 <= i < s.len() {
        if s[i] == q {
            if byte_is(s, i + 1, q) {
                lemma_quoted_end_ascii(s, i + 2, q, true);
            }
        } else {
            lemma_quoted_end_ascii(s, i + 1, q, true);
        }
    }
}

/// Tokens end just after an ASCII byte.
pub proof fn lemma_token_end_ascii(s: Seq<u8>, i: int)
    requires
        0 <= i < s.len() <= usize::MAX,
    ensures
        token_at(s, i) matches Ok(t) ==> s[t.span.end - 1] < 0x80,
{
    lemma_token_at_bounds(s, i);
    let b = s[i];
    if is_identifier_start_byte(b) {
        lemma_identifier_end_bounds(s, i + 1);
        lemma_identifier_end_ascii(s, i + 1);
    } else if is_digit_byte(b) {
        lemma_digits_end_bounds(s, i + 1);
        lemma_digits_end_ascii(s, i + 1);
    } else if b == 34 {
        lemma_quoted_end_ascii(s, i + 1, 34, false);
        lemma_quoted_end_bounds(s, i + 1, 34, false);
    } else if b == 39 {
        lemma_quoted_end_ascii(s, i + 1, 39, false);
        lemma_quoted_end_bounds(s, i + 1, 39, false);
    } else if single_symbol_kind(b) is Some {
        assert(b < 0x80);
    } else if b == 60 || b == 62 || b == 124 {
        assert(b < 0x80);
    }
}

// ---------------------------------------------------------------------------
// Executable lexer
// ---------------------------------------------------------------------------

fn is_whitespace(byte: u8) -> (r: bool)
    ensures
        r == is_whitespace_byte(byte),
{
    byte == 9 || byte == 10 || byte == 12 || byte == 13 || byte == 32
}

fn is_identifier_start(byte: u8) -> (r: bool)
    ensures
        r == is_identifier_start_byte(byte),
{
    (65 <= byte && byte <= 90) || (97 <= byte && byte <= 122) || byte == 95
}

fn is_digit(byte: u8) -> (r: bool)
    ensures
        r == is_digit_byte(byte),
{
    48 <= byte && byte <= 57
}

fn is_identifier_continue(byte: u8) -> (r: bool)
    ensures
        r == is_identifier_continue_byte(byte),
{
    is_identifier_start(byte) || is_digit(byte)
}


fn byte_equals(bytes: &[u8], offset: usize, expected: u8) -> (r: bool)
    ensures
        r == byte_is(bytes@, offset as int, expected),
{
    offset < bytes.len() && bytes[offset] == expected
}

fn starts_with_pair(bytes: &[u8], offset: usize, first: u8, second: u8) -> (r: bool)
    requires
        offset < usize::MAX,
    ensures
        r == (byte_is(bytes@, offset as int, first) && byte_is(bytes@, offset + 1, second)),
{
    byte_equals(bytes, offset, first) && byte_equals(bytes, offset + 1, second)
}

fn equals_bytes(word: &Vec<u8>, expected: &[u8]) -> (r: bool)
    ensures
        r == (word@ =~= expected@),
{
    if word.len() != expected.len() {
        return false;
    }
    let mut index: usize = 0;
    while index < word.len()
        invariant
            word@.len() == expected@.len(),
            index <= word@.len(),
            forall|k: int| 0 <= k < index ==> word@[k] == expected@[k],
        decreases word@.len() - index,
    {
        if word[index] != expected[index] {
            return false;
        }
        index = index + 1;
    }
    true
}

fn to_ascii_upper(word: &[u8]) -> (upper: Vec<u8>)
    ensures
        upper@ =~= ascii_upper(word@),
{
    let mut upper: Vec<u8> = Vec::new();
    let mut index: usize = 0;
    while index < word.len()
        invariant
            index <= word@.len(),
            upper@ =~= ascii_upper(word@.subrange(0, index as int)),
        decreases word@.len() - index,
    {
        let byte = word[index];
        let mapped = if 97 <= byte && byte <= 122 {
            byte - 32
        } else {
            byte
        };
        upper.push(mapped);
        assert(word@.subrange(0, index + 1) =~= word@.subrange(0, index as int).push(byte));
        index = index + 1;
    }
    assert(word@.subrange(0, word@.len() as int) =~= word@);
    upper
}

/// Returns the reserved keyword that a word spells, ignoring ASCII case.
fn from_keyword(word: &[u8]) -> (kind: Option<TokenKind>)
    ensures
        kind == keyword_kind(ascii_upper(word@)),
{
    let upper = to_ascii_upper(word);
    if equals_bytes(&upper, &[65, 76, 76]) { return Some(TokenKind::All); }  // ALL
    if equals_bytes(&upper, &[65, 78, 68]) { return Some(TokenKind::And); }  // AND
    if equals_bytes(&upper, &[65, 83]) { return Some(TokenKind::As); }  // AS
    if equals_bytes(&upper, &[65, 83, 67]) { return Some(TokenKind::Asc); }  // ASC
    if equals_bytes(&upper, &[66, 79, 79, 76, 69, 65, 78]) { return Some(TokenKind::Boolean); }  // BOOLEAN
    if equals_bytes(&upper, &[66, 79, 79, 76, 95, 65, 78, 68]) { return Some(TokenKind::BoolAnd); }  // BOOL_AND
    if equals_bytes(&upper, &[66, 79, 79, 76, 95, 79, 82]) { return Some(TokenKind::BoolOr); }  // BOOL_OR
    if equals_bytes(&upper, &[66, 89]) { return Some(TokenKind::By); }  // BY
    if equals_bytes(&upper, &[67, 65, 83, 69]) { return Some(TokenKind::Case); }  // CASE
    if equals_bytes(&upper, &[67, 65, 83, 84]) { return Some(TokenKind::Cast); }  // CAST
    if equals_bytes(&upper, &[67, 79, 85, 78, 84]) { return Some(TokenKind::Count); }  // COUNT
    if equals_bytes(&upper, &[67, 82, 79, 83, 83]) { return Some(TokenKind::Cross); }  // CROSS
    if equals_bytes(&upper, &[68, 69, 78, 83, 69, 95, 82, 65, 78, 75]) { return Some(TokenKind::DenseRank); }  // DENSE_RANK
    if equals_bytes(&upper, &[68, 69, 83, 67]) { return Some(TokenKind::Desc); }  // DESC
    if equals_bytes(&upper, &[68, 73, 83, 84, 73, 78, 67, 84]) { return Some(TokenKind::Distinct); }  // DISTINCT
    if equals_bytes(&upper, &[69, 76, 83, 69]) { return Some(TokenKind::Else); }  // ELSE
    if equals_bytes(&upper, &[69, 78, 68]) { return Some(TokenKind::End); }  // END
    if equals_bytes(&upper, &[69, 88, 67, 69, 80, 84]) { return Some(TokenKind::Except); }  // EXCEPT
    if equals_bytes(&upper, &[69, 88, 73, 83, 84, 83]) { return Some(TokenKind::Exists); }  // EXISTS
    if equals_bytes(&upper, &[70, 65, 76, 83, 69]) { return Some(TokenKind::False); }  // FALSE
    if equals_bytes(&upper, &[70, 73, 82, 83, 84]) { return Some(TokenKind::First); }  // FIRST
    if equals_bytes(&upper, &[70, 82, 79, 77]) { return Some(TokenKind::From); }  // FROM
    if equals_bytes(&upper, &[70, 85, 76, 76]) { return Some(TokenKind::Full); }  // FULL
    if equals_bytes(&upper, &[71, 82, 79, 85, 80]) { return Some(TokenKind::Group); }  // GROUP
    if equals_bytes(&upper, &[72, 65, 86, 73, 78, 71]) { return Some(TokenKind::Having); }  // HAVING
    if equals_bytes(&upper, &[73, 78]) { return Some(TokenKind::In); }  // IN
    if equals_bytes(&upper, &[73, 78, 78, 69, 82]) { return Some(TokenKind::Inner); }  // INNER
    if equals_bytes(&upper, &[73, 78, 84, 54, 52]) { return Some(TokenKind::Int64); }  // INT64
    if equals_bytes(&upper, &[73, 78, 84, 69, 82, 83, 69, 67, 84]) { return Some(TokenKind::Intersect); }  // INTERSECT
    if equals_bytes(&upper, &[73, 83]) { return Some(TokenKind::Is); }  // IS
    if equals_bytes(&upper, &[74, 79, 73, 78]) { return Some(TokenKind::Join); }  // JOIN
    if equals_bytes(&upper, &[76, 65, 83, 84]) { return Some(TokenKind::Last); }  // LAST
    if equals_bytes(&upper, &[76, 69, 70, 84]) { return Some(TokenKind::Left); }  // LEFT
    if equals_bytes(&upper, &[76, 73, 77, 73, 84]) { return Some(TokenKind::Limit); }  // LIMIT
    if equals_bytes(&upper, &[77, 65, 88]) { return Some(TokenKind::Max); }  // MAX
    if equals_bytes(&upper, &[77, 73, 78]) { return Some(TokenKind::Min); }  // MIN
    if equals_bytes(&upper, &[78, 79, 84]) { return Some(TokenKind::Not); }  // NOT
    if equals_bytes(&upper, &[78, 85, 76, 76]) { return Some(TokenKind::Null); }  // NULL
    if equals_bytes(&upper, &[78, 85, 76, 76, 83]) { return Some(TokenKind::Nulls); }  // NULLS
    if equals_bytes(&upper, &[79, 70, 70, 83, 69, 84]) { return Some(TokenKind::Offset); }  // OFFSET
    if equals_bytes(&upper, &[79, 78]) { return Some(TokenKind::On); }  // ON
    if equals_bytes(&upper, &[79, 82]) { return Some(TokenKind::Or); }  // OR
    if equals_bytes(&upper, &[79, 82, 68, 69, 82]) { return Some(TokenKind::Order); }  // ORDER
    if equals_bytes(&upper, &[79, 85, 84, 69, 82]) { return Some(TokenKind::Outer); }  // OUTER
    if equals_bytes(&upper, &[79, 86, 69, 82]) { return Some(TokenKind::Over); }  // OVER
    if equals_bytes(&upper, &[80, 65, 82, 84, 73, 84, 73, 79, 78]) { return Some(TokenKind::Partition); }  // PARTITION
    if equals_bytes(&upper, &[82, 65, 78, 75]) { return Some(TokenKind::Rank); }  // RANK
    if equals_bytes(&upper, &[82, 73, 71, 72, 84]) { return Some(TokenKind::Right); }  // RIGHT
    if equals_bytes(&upper, &[82, 79, 87, 95, 78, 85, 77, 66, 69, 82]) { return Some(TokenKind::RowNumber); }  // ROW_NUMBER
    if equals_bytes(&upper, &[83, 69, 76, 69, 67, 84]) { return Some(TokenKind::Select); }  // SELECT
    if equals_bytes(&upper, &[83, 85, 77]) { return Some(TokenKind::Sum); }  // SUM
    if equals_bytes(&upper, &[84, 69, 88, 84]) { return Some(TokenKind::Text); }  // TEXT
    if equals_bytes(&upper, &[84, 72, 69, 78]) { return Some(TokenKind::Then); }  // THEN
    if equals_bytes(&upper, &[84, 82, 85, 69]) { return Some(TokenKind::True); }  // TRUE
    if equals_bytes(&upper, &[85, 78, 73, 79, 78]) { return Some(TokenKind::Union); }  // UNION
    if equals_bytes(&upper, &[87, 72, 69, 78]) { return Some(TokenKind::When); }  // WHEN
    if equals_bytes(&upper, &[87, 72, 69, 82, 69]) { return Some(TokenKind::Where); }  // WHERE
    if equals_bytes(&upper, &[87, 73, 84, 72]) { return Some(TokenKind::With); }  // WITH
    None
}

fn skip_line_comment(bytes: &[u8], start: usize) -> (end: usize)
    requires
        start <= bytes@.len() <= usize::MAX,
    ensures
        end == line_comment_end(bytes@, start as int),
{
    let mut offset = start;
    while offset < bytes.len() && bytes[offset] != 10 && bytes[offset] != 13
        invariant
            start <= offset <= bytes@.len(),
            line_comment_end(bytes@, start as int) == line_comment_end(bytes@, offset as int),
        decreases bytes@.len() - offset,
    {
        offset = offset + 1;
    }
    offset
}

fn skip_block_comment(bytes: &[u8], start: usize) -> (r: Result<usize, LexError>)
    requires
        start + 2 <= bytes@.len() <= usize::MAX,
    ensures
        r matches Ok(e) ==> block_comment_end(bytes@, start + 2) == Some(e as int),
        r matches Err(error) ==> block_comment_end(bytes@, start + 2) is None && error
            == lex_error(LexErrorKind::UnterminatedBlockComment, start as int, bytes@.len() as int),
{
    let mut offset = start + 2;
    while offset < bytes.len()
        invariant
            start + 2 <= offset <= bytes@.len(),
            block_comment_end(bytes@, start + 2) == block_comment_end(bytes@, offset as int),
        decreases bytes@.len() - offset,
    {
        if starts_with_pair(bytes, offset, 42, 47) {
            return Ok(offset + 2);
        }
        offset = offset + 1;
    }
    Err(LexError::new(LexErrorKind::UnterminatedBlockComment, start, offset))
}

fn skip_separators(bytes: &[u8], start: usize) -> (r: Result<usize, LexError>)
    requires
        start <= bytes@.len() <= usize::MAX,
    ensures
        r matches Ok(j) ==> skip_separators_from(bytes@, start as int) == Ok::<int, LexError>(
            j as int,
        ),
        r matches Err(e) ==> skip_separators_from(bytes@, start as int) == Err::<int, LexError>(e),
{
    let mut offset = start;
    loop
        invariant
            start <= offset <= bytes@.len(),
            skip_separators_from(bytes@, start as int) == skip_separators_from(bytes@, offset as int),
        decreases bytes@.len() - offset,
    {
        if offset < bytes.len() && is_whitespace(bytes[offset]) {
            offset = offset + 1;
        } else if offset < bytes.len() && starts_with_pair(bytes, offset, 45, 45) {
            proof {
                lemma_line_comment_end_bounds(bytes@, offset + 2);
            }
            offset = skip_line_comment(bytes, offset + 2);
        } else if offset < bytes.len() && starts_with_pair(bytes, offset, 47, 42) {
            proof {
                lemma_block_comment_end_bounds(bytes@, offset + 2);
            }
            offset = skip_block_comment(bytes, offset)?;
        } else {
            return Ok(offset);
        }
    }
}

fn scan_identifier(bytes: &[u8], start: usize) -> (t: Token)
    requires
        start < bytes@.len() <= usize::MAX,
        is_identifier_start_byte(bytes@[start as int]),
    ensures
        token_at(bytes@, start as int) == Ok::<Token, LexError>(t),
{
    let mut offset = start + 1;
    while offset < bytes.len() && is_identifier_continue(bytes[offset])
        invariant
            start < offset <= bytes@.len(),
            identifier_end(bytes@, start + 1) == identifier_end(bytes@, offset as int),
        decreases bytes@.len() - offset,
    {
        offset = offset + 1;
    }
    let word = slice_range(bytes, start, offset);
    let kind = match from_keyword(word) {
        Some(kind) => kind,
        None => TokenKind::Identifier,
    };
    Token { kind, span: Span::new(start, offset) }
}

fn slice_range(bytes: &[u8], start: usize, end: usize) -> (r: &[u8])
    requires
        start <= end <= bytes@.len(),
    ensures
        r@ =~= bytes@.subrange(start as int, end as int),
{
    let (head, _) = bytes.split_at(end);
    let (_, middle) = head.split_at(start);
    middle
}

fn scan_integer(bytes: &[u8], start: usize) -> (t: Token)
    requires
        start < bytes@.len() <= usize::MAX,
        is_digit_byte(bytes@[start as int]),
    ensures
        token_at(bytes@, start as int) == Ok::<Token, LexError>(t),
{
    let mut offset = start + 1;
    while offset < bytes.len() && is_digit(bytes[offset])
        invariant
            start < offset <= bytes@.len(),
            digits_end(bytes@, start + 1) == digits_end(bytes@, offset as int),
        decreases bytes@.len() - offset,
    {
        offset = offset + 1;
    }
    Token { kind: TokenKind::IntegerLiteral, span: Span::new(start, offset) }
}

/// Scans a quoted body after the opening quote at `start`.
fn scan_quoted(bytes: &[u8], start: usize, quote: u8) -> (r: Result<(usize, bool), usize>)
    requires
        start < bytes@.len() <= usize::MAX,
    ensures
        r matches Ok((e, has_value)) ==> quoted_end(bytes@, start + 1, quote, false) == Some(
            (e as int, has_value),
        ),
        r matches Err(e) ==> quoted_end(bytes@, start + 1, quote, false) is None && e
            == bytes@.len(),
{
    let mut offset = start + 1;
    let mut has_value = false;
    while offset < bytes.len()
        invariant
            start < offset <= bytes@.len(),
            quoted_end(bytes@, start + 1, quote, false) == quoted_end(
                bytes@,
                offset as int,
                quote,
                has_value,
            ),
        decreases bytes@.len() - offset,
    {
        if bytes[offset] == quote {
            if byte_equals(bytes, offset + 1, quote) {
                has_value = true;
                offset = offset + 2;
            } else {
                return Ok((offset + 1, has_value));
            }
        } else {
            has_value = true;
            offset = offset + 1;
        }
    }
    Err(offset)
}

fn scan_delimited_identifier(bytes: &[u8], start: usize) -> (r: Result<Token, LexError>)
    requires
        start < bytes@.len() <= usize::MAX,
        bytes@[start as int] == 34,
    ensures
        r matches Ok(t) ==> token_at(bytes@, start as int) == Ok::<Token, LexError>(t),
        r matches Err(e) ==> token_at(bytes@, start as int) == Err::<Token, LexError>(e),
{
    match scan_quoted(bytes, start, 34) {
        Ok((end, has_value)) => {
            if !has_value {
                return Err(LexError::new(LexErrorKind::EmptyDelimitedIdentifier, start, end));
            }
            Ok(Token { kind: TokenKind::DelimitedIdentifier, span: Span::new(start, end) })
        },
        Err(end) => Err(LexError::new(LexErrorKind::UnterminatedDelimitedIdentifier, start, end)),
    }
}

fn scan_text_literal(bytes: &[u8], start: usize) -> (r: Result<Token, LexError>)
    requires
        start < bytes@.len() <= usize::MAX,
        bytes@[start as int] == 39,
    ensures
        r matches Ok(t) ==> token_at(bytes@, start as int) == Ok::<Token, LexError>(t),
        r matches Err(e) ==> token_at(bytes@, start as int) == Err::<Token, LexError>(e),
{
    match scan_quoted(bytes, start, 39) {
        Ok((end, _)) => Ok(Token { kind: TokenKind::TextLiteral, span: Span::new(start, end) }),
        Err(end) => Err(LexError::new(LexErrorKind::UnterminatedTextLiteral, start, end)),
    }
}

fn single_byte_token(start: usize, kind: TokenKind) -> (t: Token)
    requires
        start < usize::MAX,
    ensures
        t == token(kind, start as int, start + 1),
{
    Token { kind, span: Span::new(start, start + 1) }
}

fn double_byte_token(start: usize, kind: TokenKind) -> (t: Token)
    requires
        start < usize::MAX - 1,
    ensures
        t == token(kind, start as int, start + 2),
{
    Token { kind, span: Span::new(start, start + 2) }
}

fn scan_less_operator(bytes: &[u8], start: usize) -> (t: Token)
    requires
        start < bytes@.len() <= usize::MAX,
        bytes@[start as int] == 60,
    ensures
        token_at(bytes@, start as int) == Ok::<Token, LexError>(t),
{
    if byte_equals(bytes, start + 1, 62) {
        double_byte_token(start, TokenKind::NotEqual)
    } else if byte_equals(bytes, start + 1, 61) {
        double_byte_token(start, TokenKind::LessEqual)
    } else {
        single_byte_token(start, TokenKind::Less)
    }
}

fn scan_greater_operator(bytes: &[u8], start: usize) -> (t: Token)
    requires
        start < bytes@.len() <= usize::MAX,
        bytes@[start as int] == 62,
    ensures
        token_at(bytes@, start as int) == Ok::<Token, LexError>(t),
{
    if byte_equals(bytes, start + 1, 61) {
        double_byte_token(start, TokenKind::GreaterEqual)
    } else {
        single_byte_token(start, TokenKind::Greater)
    }
}

/// Returns the width and scalar value of the well-formed sequence at `start`.
pub(crate) fn decode_scalar(bytes: &[u8], start: usize) -> (r: (usize, u32))
    requires
        start < bytes@.len(),
        utf8_width_at(bytes@, start as int) > 0,
    ensures
        r.0 == utf8_width_at(bytes@, start as int),
        r.1 == utf8_scalar_at(bytes@, start as int),
        is_scalar_value(r.1 as int),
{
    let b0 = bytes[start];
    if b0 <= 0x7F {
        (1, b0 as u32)
    } else if b0 <= 0xDF {
        let b1 = bytes[start + 1];
        (2, (b0 as u32 - 0xC0) * 64 + (b1 as u32 - 0x80))
    } else if b0 <= 0xEF {
        let b1 = bytes[start + 1];
        let b2 = bytes[start + 2];
        (3, (b0 as u32 - 0xE0) * 4096 + (b1 as u32 - 0x80) * 64 + (b2 as u32 - 0x80))
    } else {
        let b1 = bytes[start + 1];
        let b2 = bytes[start + 2];
        let b3 = bytes[start + 3];
        (
            4,
            (b0 as u32 - 0xF0) * 262144 + (b1 as u32 - 0x80) * 4096 + (b2 as u32 - 0x80) * 64 + (b3
                as u32 - 0x80),
        )
    }
}

/// A Unicode scalar value: at most U+10FFFF and not a surrogate.
pub open spec fn is_scalar_value(v: int) -> bool {
    0 <= v <= 0x10FFFF && !(0xD800 <= v <= 0xDFFF)
}

/// `char::from_u32`: the character with the given scalar value, if `value` is one.
#[verifier::external_body]
pub(crate) fn char_from_u32(value: u32) -> (c: Option<char>)
    ensures
        c matches Some(ch) <==> is_scalar_value(value as int),
        c matches Some(ch) ==> ch as u32 == value && ch as int == value as int,
{
    char::from_u32(value)
}

fn unexpected_character(bytes: &[u8], start: usize) -> (e: LexError)
    requires
        start < bytes@.len() <= usize::MAX,
        utf8_width_at(bytes@, start as int) > 0,
    ensures
        e == lex_error(
            LexErrorKind::UnexpectedCharacter(utf8_scalar_at(bytes@, start as int) as u32 as char),
            start as int,
            start + utf8_width_at(bytes@, start as int),
        ),
{
    proof {
        lemma_utf8_width_bounds(bytes@, start as int);
    }
    let (width, value) = decode_scalar(bytes, start);
    match char_from_u32(value) {
        Some(character) => {
            proof {
                vstd::utf8::char_u32_cast(character, value);
            }
            LexError::new(LexErrorKind::UnexpectedCharacter(character), start, start + width)
        },
        None => LexError::new(LexErrorKind::InvalidUtf8, start, start + width),
    }
}

fn scan_token(bytes: &[u8], start: usize) -> (r: Result<Token, LexError>)
    requires
        start < bytes@.len() <= usize::MAX,
        well_formed_utf8(bytes@),
        scan_position(bytes@, start as int),
    ensures
        r matches Ok(t) ==> token_at(bytes@, start as int) == Ok::<Token, LexError>(t),
        r matches Err(e) ==> token_at(bytes@, start as int) == Err::<Token, LexError>(e),
{
    let first = bytes[start];
    if is_identifier_start(first) {
        return Ok(scan_identifier(bytes, start));
    }
    if is_digit(first) {
        return Ok(scan_integer(bytes, start));
    }
    if first == 34 {
        scan_delimited_identifier(bytes, start)
    } else if first == 39 {
        scan_text_literal(bytes, start)
    } else if first == 40 {
        Ok(single_byte_token(start, TokenKind::LeftParenthesis))
    } else if first == 41 {
        Ok(single_byte_token(start, TokenKind::RightParenthesis))
    } else if first == 44 {
        Ok(single_byte_token(start, TokenKind::Comma))
    } else if first == 46 {
        Ok(single_byte_token(start, TokenKind::Dot))
    } else if first == 59 {
        Ok(single_byte_token(start, TokenKind::Semicolon))
    } else if first == 43 {
        Ok(single_byte_token(start, TokenKind::Plus))
    } else if first == 45 {
        Ok(single_byte_token(start, TokenKind::Minus))
    } else if first == 42 {
        Ok(single_byte_token(start, TokenKind::Star))
    } else if first == 47 {
        Ok(single_byte_token(start, TokenKind::Slash))
    } else if first == 37 {
        Ok(single_byte_token(start, TokenKind::Percent))
    } else if first == 61 {
        Ok(single_byte_token(start, TokenKind::Equal))
    } else if first == 60 {
        Ok(scan_less_operator(bytes, start))
    } else if first == 62 {
        Ok(scan_greater_operator(bytes, start))
    } else if first == 124 && byte_equals(bytes, start + 1, 124) {
        Ok(double_byte_token(start, TokenKind::Concatenate))
    } else {
        proof {
            lemma_scan_position_is_boundary(bytes@, start as int);
        }
        Err(unexpected_character(bytes, start))
    }
}

fn scan(bytes: &[u8], start: usize) -> (r: Result<Vec<Token>, LexError>)
    requires
        bytes@.len() <= usize::MAX,
        start <= bytes@.len(),
        well_formed_utf8(bytes@),
        start < bytes@.len() ==> scan_position(bytes@, start as int),
    ensures
        r matches Ok(tokens) ==> tokens_from(bytes@, start as int) == Ok::<Seq<Token>, LexError>(
            tokens@,
        ),
        r matches Err(e) ==> tokens_from(bytes@, start as int) == Err::<Seq<Token>, LexError>(e),
{
    let ghost s = bytes@;
    let mut tokens: Vec<Token> = Vec::new();
    let mut offset = start;
    loop
        invariant
            s == bytes@,
            bytes@.len() <= usize::MAX,
            well_formed_utf8(s),
            start <= offset <= s.len(),
            offset < s.len() ==> scan_position(s, offset as int),
            tokens_from(s, start as int) == match tokens_from(s, offset as int) {
                Ok(rest) => Ok(tokens@ + rest),
                Err(e) => Err(e),
            },
        decreases s.len() - offset,
    {
        proof {
            lemma_skip_separators_bounds(s, offset as int);
            lemma_skip_separators_scan_position(s, offset as int);
        }
        let next = match skip_separators(bytes, offset) {
            Ok(next) => next,
            Err(e) => {
                return Err(e);
            },
        };
        if next >= bytes.len() {
            assert(tokens@ + Seq::<Token>::empty() =~= tokens@);
            return Ok(tokens);
        }
        proof {
            lemma_token_at_bounds(s, next as int);
            lemma_token_end_ascii(s, next as int);
        }
        let t = match scan_token(bytes, next) {
            Ok(t) => t,
            Err(e) => {
                return Err(e);
            },
        };
        proof {
            match tokens_from(s, t.span.end as int) {
                Ok(rest) => {
                    assert(tokens@ + (seq![t] + rest) =~= tokens@.push(t) + rest);
                },
                Err(_) => {},
            }
        }
        tokens.push(t);
        offset = t.span.end;
    }
}

pub(crate) fn utf8_width(bytes: &[u8], start: usize) -> (w: usize)
    requires
        start < bytes@.len(),
    ensures
        w == utf8_width_at(bytes@, start as int),
{
    let b0 = bytes[start];
    let n = bytes.len();
    if b0 <= 0x7F {
        return 1;
    }
    let width: usize = if 0xC2 <= b0 && b0 <= 0xDF {
        2
    } else if 0xE0 <= b0 && b0 <= 0xEF {
        3
    } else if 0xF0 <= b0 && b0 <= 0xF4 {
        4
    } else {
        0
    };
    if width == 0 || width > n - start {
        return 0;
    }
    let low: u8 = if b0 == 0xE0 {
        0xA0
    } else if b0 == 0xF0 {
        0x90
    } else {
        0x80
    };
    let high: u8 = if b0 == 0xED {
        0x9F
    } else if b0 == 0xF4 {
        0x8F
    } else {
        0xBF
    };
    let b1 = bytes[start + 1];
    if b1 < low || b1 > high {
        return 0;
    }
    if width >= 3 && !(0x80 <= bytes[start + 2] && bytes[start + 2] <= 0xBF) {
        return 0;
    }
    if width >= 4 && !(0x80 <= bytes[start + 3] && bytes[start + 3] <= 0xBF) {
        return 0;
    }
    width
}

/// Returns the first position where the source stops being well-formed UTF-8.
fn utf8_valid_up_to(bytes: &[u8]) -> (v: usize)
    ensures
        v == utf8_error_position(bytes@, 0),
{
    let mut offset: usize = 0;
    while offset < bytes.len()
        invariant
            offset <= bytes@.len(),
            utf8_error_position(bytes@, 0) == utf8_error_position(bytes@, offset as int),
        decreases bytes@.len() - offset,
    {
        let width = utf8_width(bytes, offset);
        if width == 0 {
            return offset;
        }
        proof {
            lemma_utf8_width_bounds(bytes@, offset as int);
        }
        offset = offset + width;
    }
    offset
}

fn utf8_invalid_length(bytes: &[u8], start: usize) -> (r: Option<usize>)
    requires
        start < bytes@.len(),
    ensures
        r matches Some(l) ==> start + l <= bytes@.len(),
        r matches Some(l) ==> utf8_error_length(bytes@, start as int) == Some(l as int),
        r is None ==> utf8_error_length(bytes@, start as int) is None,
{
    let b0 = bytes[start];
    let n = bytes.len();
    let width: usize = if b0 <= 0x7F {
        1
    } else if 0xC2 <= b0 && b0 <= 0xDF {
        2
    } else if 0xE0 <= b0 && b0 <= 0xEF {
        3
    } else if 0xF0 <= b0 && b0 <= 0xF4 {
        4
    } else {
        0
    };
    if width == 0 {
        return Some(1);
    }
    if start + 1 >= n {
        return None;
    }
    let low: u8 = if b0 == 0xE0 {
        0xA0
    } else if b0 == 0xF0 {
        0x90
    } else {
        0x80
    };
    let high: u8 = if b0 == 0xED {
        0x9F
    } else if b0 == 0xF4 {
        0x8F
    } else {
        0xBF
    };
    let b1 = bytes[start + 1];
    if b1 < low || b1 > high || width == 2 {
        return Some(1);
    }
    if start + 2 >= n {
        return None;
    }
    let b2 = bytes[start + 2];
    if !(0x80 <= b2 && b2 <= 0xBF) || width == 3 {
        return Some(2);
    }
    if start + 3 >= n {
        return None;
    }
    Some(3)
}

fn first_null(bytes: &[u8]) -> (p: usize)
    ensures
        p == first_null_position(bytes@, 0),
{
    let mut offset: usize = 0;
    while offset < bytes.len() && bytes[offset] != 0
        invariant
            offset <= bytes@.len(),
            first_null_position(bytes@, 0) == first_null_position(bytes@, offset as int),
        decreases bytes@.len() - offset,
    {
        offset = offset + 1;
    }
    offset
}

fn invalid_utf8_error(bytes: &[u8], start: usize) -> (e: LexError)
    requires
        start < bytes@.len() <= usize::MAX,
    ensures
        e == lex_error(
            LexErrorKind::InvalidUtf8,
            start as int,
            match utf8_error_length(bytes@, start as int) {
                Some(length) => start + length,
                None => start + 1,
            },
        ),
{
    let end = match utf8_invalid_length(bytes, start) {
        Some(length) => start + length,
        None => start + 1,
    };
    LexError::new(LexErrorKind::InvalidUtf8, start, end)
}

/// Divides a complete ShapeSQL source text into tokens.
///
/// Token spans use half-open UTF-8 byte offsets. Whitespace, comments, and an
/// optional initial byte-order mark do not produce tokens.
pub fn lex(source: &[u8]) -> (r: Result<Vec<Token>, LexError>)
    ensures
        r matches Ok(tokens) ==> lex_spec(source@) == Ok::<Seq<Token>, LexError>(tokens@),
        r matches Err(e) ==> lex_spec(source@) == Err::<Seq<Token>, LexError>(e),
{
    let length = source.len();
    proof {
        lemma_utf8_error_position_bound(source@, 0);
    }
    let valid_up_to = utf8_valid_up_to(source);
    if valid_up_to < source.len() {
        return Err(invalid_utf8_error(source, valid_up_to));
    }
    let null = first_null(source);
    if null < source.len() {
        return Err(LexError::new(LexErrorKind::NullCharacter, null, null + 1));
    }
    let offset: usize = if source.len() >= 3 && source[0] == 0xEF && source[1] == 0xBB
        && source[2] == 0xBF {
        3
    } else {
        0
    };
    scan(source, offset)
}

} // verus!
