//! Recursive-descent parsing of ShapeSQL token streams.
use crate::ast::{
    AggregateArgument, AggregateFunction, AggregateWindow, BinaryOperator, CommonTableExpression,
    Expression, Identifier, IdentifierKind, IntegerLiteral, Join, JoinKind, JoinedTable, Literal,
    NullPlacement, OrderDirection, OrderItem, Program, QueryBody, QueryExpression, RankingFunction,
    RowBound, ScalarType, SelectItem, SelectQuery, SetOperator, TablePrimary, TextLiteral,
    UnaryOperator, WhenClause,
};
use crate::lexer::{
    lex, lex_error_text, lex_spec, token_kind_debug, token_kind_debug_text, LexError, Span, Token,
    TokenKind,
};
use vstd::prelude::*;

verus! {

/// A lexical or syntactic failure encountered while parsing a source program.
#[derive(Clone, Copy, Debug, PartialEq, Eq)]
pub enum ParseError {
    Lexical(LexError),
    Syntactic(SyntaxError),
}

/// A token mismatch between the input and the ShapeSQL grammar.
#[derive(Clone, Copy, Debug, PartialEq, Eq)]
pub struct SyntaxError {
    pub expected: &'static str,
    pub found: Option<TokenKind>,
    pub span: Span,
}

/// A syntax error reports a token of the input with that token's span,
/// or, where it found nothing, the end of the source.
pub open spec fn error_located(tokens: Seq<Token>, end_offset: usize, e: SyntaxError) -> bool {
    match e.found {
        Some(kind) => exists|i: int| 0 <= i < tokens.len() && (#[trigger] tokens[i]).kind == kind && tokens[i].span == e.span,
        None => e.span == (Span { start: end_offset, end: end_offset }),
    }
}

/// The text of a syntax error.
pub open spec fn syntax_error_text(error: SyntaxError) -> Seq<char> {
    "expected "@ + error.expected@ + match error.found {
        Some(kind) => ", found "@ + token_kind_debug(kind),
        None => ", found end of input"@,
    }
}

impl SyntaxError {
    /// The error as one line of text.
    pub fn describe(&self) -> (text: String)
        ensures
            text@ == syntax_error_text(*self),
    {
        let mut text = String::from_str("expected ");
        text.append(self.expected);
        match self.found {
            Some(kind) => {
                text.append(", found ");
                text.append(token_kind_debug_text(kind));
            },
            None => {
                text.append(", found end of input");
            },
        }
        assert(text@ =~= syntax_error_text(*self));
        text
    }
}

impl ParseError {
    /// The error as one line of text.
    pub fn describe(&self) -> (text: String)
        ensures
            text@ == match self {
                ParseError::Lexical(error) => lex_error_text(error.kind),
                ParseError::Syntactic(error) => syntax_error_text(*error),
            },
    {
        match self {
            ParseError::Lexical(error) => error.describe(),
            ParseError::Syntactic(error) => error.describe(),
        }
    }
}

/// The span from the start of token `from` to the end of token `to - 1`.
/// How the tokens write every set operation of a query body, down the
/// operands of each: as `set_operation_written` says of each.
pub open spec fn set_operations_written(tokens: Seq<Token>, body: QueryBody) -> bool
    decreases body,
{
    &&& set_operation_written(tokens, body)
    &&& match body {
        QueryBody::SetOperation { left, right, .. } => set_operations_written(tokens, *left)
            && set_operations_written(tokens, *right),
        _ => true,
    }
}

/// Whether a query body sits at the level of INTERSECT, which binds
/// tighter than UNION and EXCEPT: it is no UNION or EXCEPT operation.
pub open spec fn intersect_level(body: QueryBody) -> bool {
    body matches QueryBody::SetOperation { operator, .. } ==> operator == SetOperator::Intersect
}

/// How the tokens write a set operation at the top of a query body: its
/// operator's keyword is the token right after the tokens of its left
/// operand; INTERSECT binds tighter than UNION and EXCEPT, and all three
/// associate to the left, so the right operand of INTERSECT is no set
/// operation and that of UNION or EXCEPT is no UNION or EXCEPT.
pub open spec fn set_operation_written(tokens: Seq<Token>, body: QueryBody) -> bool {
    body matches QueryBody::SetOperation { left, operator, right, .. } ==> {
        &&& exists|from: int, p: int|
            #![trigger covering(tokens, from, p), tokens[p]]
            0 <= from < p < tokens.len() && left.spec_span() == covering(tokens, from, p) && tokens[p].kind
                == set_keyword(operator)
        &&& operator == SetOperator::Intersect ==> !((*right) is SetOperation)
        &&& operator != SetOperator::Intersect ==> intersect_level(*right)
    }
}

/// The precedence level of a binary operator, from the loosest: OR, AND,
/// the comparisons, concatenation, + and -, then *, / and %.
pub open spec fn binary_level(operator: BinaryOperator) -> nat {
    match operator {
        BinaryOperator::Or => 1,
        BinaryOperator::And => 2,
        BinaryOperator::Concatenate => 4,
        BinaryOperator::Add => 5,
        BinaryOperator::Subtract => 5,
        BinaryOperator::Multiply => 6,
        BinaryOperator::Divide => 6,
        BinaryOperator::Remainder => 6,
        _ => 3,
    }
}

/// Whether an expression is no binary expression looser than `level`.
pub open spec fn binary_at_least(expression: Expression, level: nat) -> bool {
    expression matches Expression::Binary { operator, .. } ==> binary_level(operator) >= level
}

/// The token that writes a binary operator.
pub open spec fn operator_token(operator: BinaryOperator) -> TokenKind {
    match operator {
        BinaryOperator::Or => TokenKind::Or,
        BinaryOperator::And => TokenKind::And,
        BinaryOperator::Equal => TokenKind::Equal,
        BinaryOperator::NotEqual => TokenKind::NotEqual,
        BinaryOperator::Less => TokenKind::Less,
        BinaryOperator::LessEqual => TokenKind::LessEqual,
        BinaryOperator::Greater => TokenKind::Greater,
        BinaryOperator::GreaterEqual => TokenKind::GreaterEqual,
        BinaryOperator::Concatenate => TokenKind::Concatenate,
        BinaryOperator::Add => TokenKind::Plus,
        BinaryOperator::Subtract => TokenKind::Minus,
        BinaryOperator::Multiply => TokenKind::Star,
        BinaryOperator::Divide => TokenKind::Slash,
        BinaryOperator::Remainder => TokenKind::Percent,
    }
}

/// The keyword that writes a set operator.
pub open spec fn set_keyword(operator: SetOperator) -> TokenKind {
    match operator {
        SetOperator::Union => TokenKind::Union,
        SetOperator::Except => TokenKind::Except,
        SetOperator::Intersect => TokenKind::Intersect,
    }
}

pub open spec fn covering(tokens: Seq<Token>, from: int, to: int) -> Span {
    Span { start: tokens[from].span.start, end: tokens[to - 1].span.end }
}

/// Lexes and parses one complete ShapeSQL source program.
///
/// A successful parse consumes the whole token stream: the program's span runs
/// from the first token to the last.
pub fn parse(source: &[u8]) -> (r: Result<Program, ParseError>)
    ensures
        match lex_spec(source@) {
            Err(e) => r == Err::<Program, ParseError>(ParseError::Lexical(e)),
            Ok(tokens) => match r {
                Ok(program) => tokens.len() > 0 && program.span == covering(tokens, 0, tokens.len() as int)
                    && set_operations_written(tokens, program.query.body),
                Err(ParseError::Syntactic(e)) => error_located(tokens, source@.len() as usize, e),
                Err(ParseError::Lexical(_)) => false,
            },
        },
{
    let tokens = match lex(source) {
        Ok(tokens) => tokens,
        Err(error) => {
            return Err(ParseError::Lexical(error));
        },
    };
    let slice = tokens.as_slice();
    let count = slice.len();
    let mut parser = Parser { tokens: slice, position: 0, end_offset: source.len() };
    match parser.parse_program() {
        Ok(program) => Ok(program),
        Err(error) => Err(ParseError::Syntactic(error)),
    }
}

struct Parser<'t> {
    tokens: &'t [Token],
    position: usize,
    end_offset: usize,
}

/// Token `index` exists and is an identifier, regular or delimited.
pub open spec fn identifier_at(tokens: Seq<Token>, index: int) -> bool {
    0 <= index < tokens.len() && (tokens[index].kind == TokenKind::Identifier || tokens[index].kind
        == TokenKind::DelimitedIdentifier)
}

/// Token `index` exists and begins a query: `SELECT` or `WITH`.
pub open spec fn opens_query(tokens: Seq<Token>, index: int) -> bool {
    0 <= index < tokens.len() && (tokens[index].kind == TokenKind::Select || tokens[index].kind == TokenKind::With)
}

/// The identifier that token `index` spells.
pub open spec fn identifier_of(tokens: Seq<Token>, index: int) -> Identifier {
    Identifier {
        kind: if tokens[index].kind == TokenKind::Identifier {
            IdentifierKind::Regular
        } else {
            IdentifierKind::Delimited
        },
        span: tokens[index].span,
    }
}

impl<'t> Parser<'t> {
    spec fn wf(&self) -> bool {
        self.position <= self.tokens@.len() <= usize::MAX
    }

    /// `next` is this parser after consuming zero or more tokens.
    spec fn moved_to(&self, next: &Parser<'t>) -> bool {
        &&& next.wf()
        &&& next.tokens == self.tokens
        &&& next.end_offset == self.end_offset
        &&& self.position <= next.position
    }

    /// The span of the tokens consumed between `self` and `next`.
    spec fn consumed(&self, next: &Parser<'t>) -> Span {
        covering(self.tokens@, self.position as int, next.position as int)
    }

    /// Where `body` is a set operation, its operator's keyword is the token
    /// that follows its left operand among those consumed between `self`
    /// and `next`.
    spec fn operator_follows_left(&self, next: &Parser<'t>, body: QueryBody) -> bool {
        body matches QueryBody::SetOperation { left, operator, .. } ==> exists|p: int|
            self.position < p < next.position && left.spec_span() == covering(self.tokens@, self.position as int, p)
                && #[trigger] self.tokens@[p].kind == set_keyword(operator)
    }

    /// A set operation whose keyword follows its left operand among the
    /// tokens consumed, and whose right operand sits at the right level, is
    /// written as `set_operation_written` says.
    proof fn lemma_operation_written(&self, next: &Parser<'t>, body: QueryBody)
        requires
            self.moved_to(next),
            self.operator_follows_left(next, body),
            body matches QueryBody::SetOperation { operator, right, .. } ==> ((operator
                == SetOperator::Intersect ==> !((*right) is SetOperation)) && (operator != SetOperator::Intersect
                ==> intersect_level(*right))),
        ensures
            set_operation_written(self.tokens@, body),
    {
        if let QueryBody::SetOperation { left, operator, .. } = body {
            let p = choose|p: int|
                self.position < p < next.position && left.spec_span() == covering(
                    self.tokens@,
                    self.position as int,
                    p,
                ) && #[trigger] self.tokens@[p].kind == set_keyword(operator);
            assert(0 <= self.position < p < self.tokens@.len() && left.spec_span() == covering(
                self.tokens@,
                self.position as int,
                p,
            ) && self.tokens@[p].kind == set_keyword(operator));
        }
    }

    /// An expression read at one precedence level between `self` and `next`:
    /// it is no binary expression looser than `level`, and where it is one
    /// of that level, its operator is the token right after the tokens of
    /// its left operand and its right operand binds tighter, so operators of
    /// one level associate to the left.
    spec fn level_written(&self, next: &Parser<'t>, x: Expression, level: nat) -> bool {
        &&& binary_at_least(x, level)
        &&& (x matches Expression::Binary { left, operator, right, .. } ==> (binary_level(operator) == level ==> (
        binary_at_least(*right, level + 1) && exists|p: int|
            self.position < p < next.position && left.spec_span() == covering(self.tokens@, self.position as int, p)
                && #[trigger] self.tokens@[p].kind == operator_token(operator))))
    }

    /// `next` consumed at least one token after `self`, and `span` covers exactly those tokens.
    spec fn produced(&self, next: &Parser<'t>, span: Span) -> bool {
        &&& self.position < next.position
        &&& span == self.consumed(next)
    }

    fn parse_program(&mut self) -> (r: Result<Program, SyntaxError>)
        requires
            old(self).wf(),
            old(self).position == 0,
        ensures
            r matches Err(e) ==> error_located(old(self).tokens@, old(self).end_offset, e),
            r matches Ok(x) ==> old(self).tokens@.len() > 0 && x.span == covering(
                old(self).tokens@,
                0,
                old(self).tokens@.len() as int,
            ),
            r matches Ok(x) ==> set_operations_written(old(self).tokens@, x.query.body),
    {
        let query = self.parse_query_expression()?;
        let semicolon = self.eat(TokenKind::Semicolon);
        if self.current().is_some() {
            return Err(self.error("end of input"));
        }
        let end = match semicolon {
            Some(token) => token.span.end,
            None => query.span.end,
        };
        let span = Span::new(query.span.start, end);
        Ok(Program { query, span })
    }

    fn parse_query_expression(&mut self) -> (r: Result<QueryExpression, SyntaxError>)
        requires
            old(self).wf(),
        ensures
            r matches Err(e) ==> error_located(old(self).tokens@, old(self).end_offset, e),
            old(self).moved_to(final(self)),
            r matches Ok(x) ==> old(self).produced(final(self), x.span),
            r matches Ok(x) ==> set_operations_written(old(self).tokens@, x.body),
        decreases old(self).tokens@.len() - old(self).position, 15nat,
    {
        let ghost entry = *self;
        let start = self.mark();
        let mut common_table_expressions = Vec::new();
        if self.eat(TokenKind::With).is_some() {
            common_table_expressions.push(self.parse_common_table_expression()?);
            loop
                invariant
                    entry == *old(self),
                    entry.moved_to(self),
                    entry.position < self.position,
                decreases self.tokens@.len() - self.position,
            {
                if self.eat(TokenKind::Comma).is_none() {
                    break;
                }
                common_table_expressions.push(self.parse_common_table_expression()?);
            }
        }
        let body = self.parse_union_or_except_expression()?;
        let mut order_by = Vec::new();
        let mut row_bound = None;
        if self.eat(TokenKind::Order).is_some() {
            self.expect(TokenKind::By, "`BY`")?;
            order_by.push(self.parse_order_item()?);
            loop
                invariant
                    entry == *old(self),
                    entry.moved_to(self),
                    entry.position < self.position,
                decreases self.tokens@.len() - self.position,
            {
                if self.eat(TokenKind::Comma).is_none() {
                    break;
                }
                order_by.push(self.parse_order_item()?);
            }
            if self.at(TokenKind::Limit) || self.at(TokenKind::Offset) {
                row_bound = Some(self.parse_row_bound()?);
            }
        }
        Ok(QueryExpression {
            common_table_expressions,
            body,
            order_by,
            row_bound,
            span: self.span_since(start),
        })
    }

    fn parse_common_table_expression(&mut self) -> (r: Result<CommonTableExpression, SyntaxError>)
        requires
            old(self).wf(),
        ensures
            r matches Err(e) ==> error_located(old(self).tokens@, old(self).end_offset, e),
            old(self).moved_to(final(self)),
            r matches Ok(x) ==> old(self).produced(final(self), x.span),
        decreases old(self).tokens@.len() - old(self).position, 1nat,
    {
        let start = self.mark();
        let name = self.parse_identifier()?;
        self.expect(TokenKind::As, "`AS`")?;
        self.expect(TokenKind::LeftParenthesis, "`(`")?;
        let query = self.parse_query_expression()?;
        self.expect(TokenKind::RightParenthesis, "`)`")?;
        Ok(CommonTableExpression { name, query: Box::new(query), span: self.span_since(start) })
    }

    fn parse_union_or_except_expression(&mut self) -> (r: Result<QueryBody, SyntaxError>)
        requires
            old(self).wf(),
        ensures
            r matches Err(e) ==> error_located(old(self).tokens@, old(self).end_offset, e),
            old(self).moved_to(final(self)),
            r matches Ok(x) ==> old(self).produced(final(self), x.spec_span()),
            r matches Ok(x) ==> old(self).operator_follows_left(final(self), x),
            r matches Ok(QueryBody::SetOperation { right, .. }) ==> intersect_level(*right),
            r matches Ok(x) ==> set_operations_written(old(self).tokens@, x),
        decreases old(self).tokens@.len() - old(self).position, 14nat,
    {
        let ghost entry = *self;
        let mut left = self.parse_intersect_expression()?;
        loop
            invariant
                entry == *old(self),
                entry.moved_to(self),
                entry.produced(self, left.spec_span()),
                entry.operator_follows_left(self, left),
                left matches QueryBody::SetOperation { right, .. } ==> intersect_level(*right),
                left matches QueryBody::SetOperation { operator, right, .. } ==> (operator == SetOperator::Intersect
                    ==> !((*right) is SetOperation)),
                set_operations_written(entry.tokens@, left),
            decreases self.tokens@.len() - self.position,
        {
            let ghost operator_position = self.position as int;
            let operator = if self.eat(TokenKind::Union).is_some() {
                SetOperator::Union
            } else if self.eat(TokenKind::Except).is_some() {
                SetOperator::Except
            } else {
                break;
            };
            let all = self.eat(TokenKind::All).is_some();
            let right = self.parse_intersect_expression()?;
            let span = Span::new(left.span().start, right.span().end);
            left = QueryBody::SetOperation {
                left: Box::new(left),
                operator,
                all,
                right: Box::new(right),
                span,
            };
            assert(entry.operator_follows_left(self, left)) by {
                assert(entry.tokens@[operator_position].kind == set_keyword(operator));
            }
            proof {
                entry.lemma_operation_written(self, left);
            }
        }
        Ok(left)
    }

    fn parse_intersect_expression(&mut self) -> (r: Result<QueryBody, SyntaxError>)
        requires
            old(self).wf(),
        ensures
            r matches Err(e) ==> error_located(old(self).tokens@, old(self).end_offset, e),
            old(self).moved_to(final(self)),
            r matches Ok(x) ==> old(self).produced(final(self), x.spec_span()),
            r matches Ok(x) ==> old(self).operator_follows_left(final(self), x),
            r matches Ok(x) ==> intersect_level(x),
            r matches Ok(QueryBody::SetOperation { right, .. }) ==> !((*right) is SetOperation),
            r matches Ok(x) ==> set_operations_written(old(self).tokens@, x),
        decreases old(self).tokens@.len() - old(self).position, 13nat,
    {
        let ghost entry = *self;
        let mut left = self.parse_query_primary()?;
        loop
            invariant
                entry == *old(self),
                entry.moved_to(self),
                entry.produced(self, left.spec_span()),
                entry.operator_follows_left(self, left),
                intersect_level(left),
                left matches QueryBody::SetOperation { right, .. } ==> !((*right) is SetOperation),
                set_operations_written(entry.tokens@, left),
            decreases self.tokens@.len() - self.position,
        {
            let ghost operator_position = self.position as int;
            if self.eat(TokenKind::Intersect).is_none() {
                break;
            }
            let all = self.eat(TokenKind::All).is_some();
            let right = self.parse_query_primary()?;
            assert(set_operations_written(entry.tokens@, right));
            let span = Span::new(left.span().start, right.span().end);
            left = QueryBody::SetOperation {
                left: Box::new(left),
                operator: SetOperator::Intersect,
                all,
                right: Box::new(right),
                span,
            };
            assert(entry.operator_follows_left(self, left)) by {
                assert(entry.tokens@[operator_position].kind == TokenKind::Intersect);
            }
            proof {
                entry.lemma_operation_written(self, left);
            }
        }
        Ok(left)
    }

    fn parse_query_primary(&mut self) -> (r: Result<QueryBody, SyntaxError>)
        requires
            old(self).wf(),
        ensures
            r matches Err(e) ==> error_located(old(self).tokens@, old(self).end_offset, e),
            old(self).moved_to(final(self)),
            r matches Ok(x) ==> old(self).produced(final(self), x.spec_span()),
            r matches Ok(x) ==> !(x is SetOperation),
        decreases old(self).tokens@.len() - old(self).position, 12nat,
    {
        if self.at(TokenKind::Select) {
            let query = self.parse_select_query()?;
            return Ok(QueryBody::Select(Box::new(query)));
        }
        if let Some(left_parenthesis) = self.eat(TokenKind::LeftParenthesis) {
            let query = self.parse_query_expression()?;
            let right_parenthesis = self.expect(TokenKind::RightParenthesis, "`)`")?;
            return Ok(QueryBody::Parenthesized {
                query: Box::new(query),
                span: Span::new(left_parenthesis.span.start, right_parenthesis.span.end),
            });
        }
        Err(self.error("a `SELECT` query or parenthesized query"))
    }

    fn parse_select_query(&mut self) -> (r: Result<SelectQuery, SyntaxError>)
        requires
            old(self).wf(),
        ensures
            r matches Err(e) ==> error_located(old(self).tokens@, old(self).end_offset, e),
            old(self).moved_to(final(self)),
            r matches Ok(x) ==> old(self).produced(final(self), x.span),
        decreases old(self).tokens@.len() - old(self).position, 1nat,
    {
        let ghost entry = *self;
        let start = self.mark();
        self.expect(TokenKind::Select, "`SELECT`")?;
        let distinct = self.eat(TokenKind::Distinct).is_some();
        let mut select_list = vec![self.parse_select_item()?];
        loop
            invariant
                entry == *old(self),
                entry.moved_to(self),
                entry.position < self.position,
            decreases self.tokens@.len() - self.position,
        {
            if self.eat(TokenKind::Comma).is_none() {
                break;
            }
            select_list.push(self.parse_select_item()?);
        }
        self.expect(TokenKind::From, "`FROM`")?;
        let mut from = vec![self.parse_joined_table()?];
        loop
            invariant
                entry == *old(self),
                entry.moved_to(self),
                entry.position < self.position,
            decreases self.tokens@.len() - self.position,
        {
            if self.eat(TokenKind::Comma).is_none() {
                break;
            }
            from.push(self.parse_joined_table()?);
        }
        let where_clause = if self.eat(TokenKind::Where).is_some() {
            Some(self.parse_expression()?)
        } else {
            None
        };
        let mut group_by = Vec::new();
        if self.eat(TokenKind::Group).is_some() {
            self.expect(TokenKind::By, "`BY`")?;
            group_by = self.parse_expression_list()?;
        }
        let having = if self.eat(TokenKind::Having).is_some() {
            Some(self.parse_expression()?)
        } else {
            None
        };
        Ok(SelectQuery {
            distinct,
            select_list,
            from,
            where_clause,
            group_by,
            having,
            span: self.span_since(start),
        })
    }

    fn parse_select_item(&mut self) -> (r: Result<SelectItem, SyntaxError>)
        requires
            old(self).wf(),
        ensures
            r matches Err(e) ==> error_located(old(self).tokens@, old(self).end_offset, e),
            old(self).moved_to(final(self)),
            r matches Ok(x) ==> old(self).produced(final(self), x.spec_span()),
        decreases old(self).tokens@.len() - old(self).position, 12nat,
    {
        let start = self.mark();
        if self.eat(TokenKind::Star).is_some() {
            return Ok(SelectItem::Wildcard { qualifier: None, span: self.span_since(start) });
        }
        if self.at_identifier() && self.peek_is(1, TokenKind::Dot) && self.peek_is(2, TokenKind::Star) {
            let qualifier = self.parse_identifier()?;
            self.expect(TokenKind::Dot, "`.`")?;
            self.expect(TokenKind::Star, "`*`")?;
            return Ok(SelectItem::Wildcard { qualifier: Some(qualifier), span: self.span_since(start) });
        }
        let expression = self.parse_expression()?;
        let alias = self.parse_optional_alias()?;
        Ok(SelectItem::Expression { expression, alias, span: self.span_since(start) })
    }

    fn parse_joined_table(&mut self) -> (r: Result<JoinedTable, SyntaxError>)
        requires
            old(self).wf(),
        ensures
            r matches Err(e) ==> error_located(old(self).tokens@, old(self).end_offset, e),
            old(self).moved_to(final(self)),
            r matches Ok(x) ==> old(self).produced(final(self), x.span),
        decreases old(self).tokens@.len() - old(self).position, 3nat,
    {
        let ghost entry = *self;
        let start = self.mark();
        let left = self.parse_table_primary()?;
        let mut joins = Vec::new();
        loop
            invariant
                entry == *old(self),
                entry.moved_to(self),
                entry.position < self.position,
            decreases self.tokens@.len() - self.position,
        {
            let more = match self.current_kind() {
                Some(TokenKind::Cross) | Some(TokenKind::Inner) | Some(TokenKind::Join) | Some(
                    TokenKind::Left,
                ) | Some(TokenKind::Right) | Some(TokenKind::Full) => true,
                _ => false,
            };
            if !more {
                break;
            }
            joins.push(self.parse_join()?);
        }
        Ok(JoinedTable { left, joins, span: self.span_since(start) })
    }

    fn parse_join(&mut self) -> (r: Result<Join, SyntaxError>)
        requires
            old(self).wf(),
        ensures
            r matches Err(e) ==> error_located(old(self).tokens@, old(self).end_offset, e),
            old(self).moved_to(final(self)),
            r matches Ok(x) ==> old(self).produced(final(self), x.span),
        decreases old(self).tokens@.len() - old(self).position, 1nat,
    {
        let start = self.mark();
        let (kind, needs_condition) = match self.current_kind() {
            Some(TokenKind::Cross) => {
                self.bump();
                self.expect(TokenKind::Join, "`JOIN`")?;
                (JoinKind::Cross, false)
            },
            Some(TokenKind::Inner) => {
                self.bump();
                self.expect(TokenKind::Join, "`JOIN`")?;
                (JoinKind::Inner, true)
            },
            Some(TokenKind::Join) => {
                self.bump();
                (JoinKind::Inner, true)
            },
            Some(TokenKind::Left) => {
                self.bump();
                self.eat(TokenKind::Outer);
                self.expect(TokenKind::Join, "`JOIN`")?;
                (JoinKind::Left, true)
            },
            Some(TokenKind::Right) => {
                self.bump();
                self.eat(TokenKind::Outer);
                self.expect(TokenKind::Join, "`JOIN`")?;
                (JoinKind::Right, true)
            },
            Some(TokenKind::Full) => {
                self.bump();
                self.eat(TokenKind::Outer);
                self.expect(TokenKind::Join, "`JOIN`")?;
                (JoinKind::Full, true)
            },
            _ => {
                return Err(self.error("a join"));
            },
        };
        let right = self.parse_table_primary()?;
        let condition = if needs_condition {
            self.expect(TokenKind::On, "`ON`")?;
            Some(self.parse_expression()?)
        } else {
            None
        };
        Ok(Join { kind, right, condition, span: self.span_since(start) })
    }

    fn parse_table_primary(&mut self) -> (r: Result<TablePrimary, SyntaxError>)
        requires
            old(self).wf(),
        ensures
            r matches Err(e) ==> error_located(old(self).tokens@, old(self).end_offset, e),
            old(self).moved_to(final(self)),
            r matches Ok(x) ==> old(self).produced(final(self), x.spec_span()),
        decreases old(self).tokens@.len() - old(self).position, 2nat,
    {
        let start = self.mark();
        if self.eat(TokenKind::LeftParenthesis).is_some() {
            let query = self.parse_query_expression()?;
            self.expect(TokenKind::RightParenthesis, "`)`")?;
            let alias = self.parse_required_alias()?;
            return Ok(TablePrimary::Derived {
                query: Box::new(query),
                alias,
                span: self.span_since(start),
            });
        }
        let name = self.parse_identifier()?;
        let alias = self.parse_optional_alias()?;
        Ok(TablePrimary::Named { name, alias, span: self.span_since(start) })
    }

    fn parse_optional_alias(&mut self) -> (r: Result<Option<Identifier>, SyntaxError>)
        requires
            old(self).wf(),
        ensures
            r matches Err(e) ==> error_located(old(self).tokens@, old(self).end_offset, e),
            old(self).moved_to(final(self)),
            ({
                let tokens = old(self).tokens@;
                let at = old(self).position as int;
                if at < tokens.len() && tokens[at].kind == TokenKind::As {
                    &&& r is Ok <==> identifier_at(tokens, at + 1)
                    &&& r matches Ok(alias) ==> alias == Some(identifier_of(tokens, at + 1)) && final(self).position == at + 2
                } else if identifier_at(tokens, at) {
                    r == Ok::<Option<Identifier>, SyntaxError>(Some(identifier_of(tokens, at)))
                        && final(self).position == at + 1
                } else {
                    r == Ok::<Option<Identifier>, SyntaxError>(None) && final(self).position == at
                }
            }),
    {
        if self.eat(TokenKind::As).is_some() {
            let identifier = self.parse_identifier()?;
            return Ok(Some(identifier));
        }
        if self.at_identifier() {
            let identifier = self.parse_identifier()?;
            return Ok(Some(identifier));
        }
        Ok(None)
    }

    fn parse_required_alias(&mut self) -> (r: Result<Identifier, SyntaxError>)
        requires
            old(self).wf(),
        ensures
            r matches Err(e) ==> error_located(old(self).tokens@, old(self).end_offset, e),
            old(self).moved_to(final(self)),
            r is Ok ==> old(self).position < final(self).position,
    {
        self.eat(TokenKind::As);
        self.parse_identifier()
    }

    fn parse_order_item(&mut self) -> (r: Result<OrderItem, SyntaxError>)
        requires
            old(self).wf(),
        ensures
            r matches Err(e) ==> error_located(old(self).tokens@, old(self).end_offset, e),
            old(self).moved_to(final(self)),
            r matches Ok(x) ==> old(self).produced(final(self), x.span),
        decreases old(self).tokens@.len() - old(self).position, 12nat,
    {
        let start = self.mark();
        let expression = self.parse_expression()?;
        let direction = if self.eat(TokenKind::Asc).is_some() {
            Some(OrderDirection::Ascending)
        } else if self.eat(TokenKind::Desc).is_some() {
            Some(OrderDirection::Descending)
        } else {
            None
        };
        let null_placement = if self.eat(TokenKind::Nulls).is_some() {
            if self.eat(TokenKind::First).is_some() {
                Some(NullPlacement::First)
            } else if self.eat(TokenKind::Last).is_some() {
                Some(NullPlacement::Last)
            } else {
                return Err(self.error("`FIRST` or `LAST`"));
            }
        } else {
            None
        };
        Ok(OrderItem { expression, direction, null_placement, span: self.span_since(start) })
    }

    fn parse_row_bound(&mut self) -> (r: Result<RowBound, SyntaxError>)
        requires
            old(self).wf(),
        ensures
            r matches Err(e) ==> error_located(old(self).tokens@, old(self).end_offset, e),
            old(self).moved_to(final(self)),
            r matches Ok(x) ==> old(self).produced(final(self), x.span),
    {
        let start = self.mark();
        let (limit, offset) = if self.eat(TokenKind::Limit).is_some() {
            let limit = Some(self.parse_integer_literal()?);
            let offset = if self.eat(TokenKind::Offset).is_some() {
                Some(self.parse_integer_literal()?)
            } else {
                None
            };
            (limit, offset)
        } else {
            self.expect(TokenKind::Offset, "`OFFSET`")?;
            let offset = Some(self.parse_integer_literal()?);
            let limit = if self.eat(TokenKind::Limit).is_some() {
                Some(self.parse_integer_literal()?)
            } else {
                None
            };
            (limit, offset)
        };
        Ok(RowBound { limit, offset, span: self.span_since(start) })
    }

    fn parse_expression_list(&mut self) -> (r: Result<Vec<Expression>, SyntaxError>)
        requires
            old(self).wf(),
        ensures
            r matches Err(e) ==> error_located(old(self).tokens@, old(self).end_offset, e),
            old(self).moved_to(final(self)),
            r matches Ok(list) ==> old(self).position < final(self).position && list@.len() > 0,
        decreases old(self).tokens@.len() - old(self).position, 12nat,
    {
        let ghost entry = *self;
        let mut expressions = vec![self.parse_expression()?];
        loop
            invariant
                entry == *old(self),
                entry.moved_to(self),
                entry.position < self.position,
                expressions@.len() > 0,
            decreases self.tokens@.len() - self.position,
        {
            if self.eat(TokenKind::Comma).is_none() {
                break;
            }
            expressions.push(self.parse_expression()?);
        }
        Ok(expressions)
    }

    fn parse_expression(&mut self) -> (r: Result<Expression, SyntaxError>)
        requires
            old(self).wf(),
        ensures
            r matches Err(e) ==> error_located(old(self).tokens@, old(self).end_offset, e),
            old(self).moved_to(final(self)),
            r matches Ok(x) ==> old(self).produced(final(self), x.spec_span()),
        decreases old(self).tokens@.len() - old(self).position, 11nat,
    {
        self.parse_or_expression()
    }

    fn parse_or_expression(&mut self) -> (r: Result<Expression, SyntaxError>)
        requires
            old(self).wf(),
        ensures
            r matches Ok(x) ==> old(self).level_written(final(self), x, 1nat),
            r matches Err(e) ==> error_located(old(self).tokens@, old(self).end_offset, e),
            old(self).moved_to(final(self)),
            r matches Ok(x) ==> old(self).produced(final(self), x.spec_span()),
        decreases old(self).tokens@.len() - old(self).position, 10nat,
    {
        let ghost entry = *self;
        let mut left = self.parse_and_expression()?;
        loop
            invariant
                entry == *old(self),
                entry.moved_to(self),
                entry.produced(self, left.spec_span()),
                entry.level_written(self, left, 1nat),
            decreases self.tokens@.len() - self.position,
        {
            let ghost operator_position = self.position as int;
            if self.eat(TokenKind::Or).is_none() {
                break;
            }
            let right = self.parse_and_expression()?;
            left = binary_expression(left, BinaryOperator::Or, right);
            assert(entry.level_written(self, left, 1nat)) by {
                assert(entry.tokens@[operator_position].kind == operator_token(left->Binary_operator));
            }
        }
        Ok(left)
    }

    fn parse_and_expression(&mut self) -> (r: Result<Expression, SyntaxError>)
        requires
            old(self).wf(),
        ensures
            r matches Ok(x) ==> old(self).level_written(final(self), x, 2nat),
            r matches Err(e) ==> error_located(old(self).tokens@, old(self).end_offset, e),
            old(self).moved_to(final(self)),
            r matches Ok(x) ==> old(self).produced(final(self), x.spec_span()),
        decreases old(self).tokens@.len() - old(self).position, 9nat,
    {
        let ghost entry = *self;
        let mut left = self.parse_not_expression()?;
        loop
            invariant
                entry == *old(self),
                entry.moved_to(self),
                entry.produced(self, left.spec_span()),
                entry.level_written(self, left, 2nat),
            decreases self.tokens@.len() - self.position,
        {
            let ghost operator_position = self.position as int;
            if self.eat(TokenKind::And).is_none() {
                break;
            }
            let right = self.parse_not_expression()?;
            left = binary_expression(left, BinaryOperator::And, right);
            assert(entry.level_written(self, left, 2nat)) by {
                assert(entry.tokens@[operator_position].kind == operator_token(left->Binary_operator));
            }
        }
        Ok(left)
    }

    fn parse_not_expression(&mut self) -> (r: Result<Expression, SyntaxError>)
        requires
            old(self).wf(),
        ensures
            r matches Ok(x) ==> binary_at_least(x, 3),
            r matches Err(e) ==> error_located(old(self).tokens@, old(self).end_offset, e),
            old(self).moved_to(final(self)),
            r matches Ok(x) ==> old(self).produced(final(self), x.spec_span()),
        decreases old(self).tokens@.len() - old(self).position, 8nat,
    {
        if let Some(operator) = self.eat(TokenKind::Not) {
            let expression = self.parse_not_expression()?;
            let span = Span::new(operator.span.start, expression.span().end);
            return Ok(Expression::Unary {
                operator: UnaryOperator::Not,
                expression: Box::new(expression),
                span,
            });
        }
        self.parse_predicate_expression()
    }

    fn parse_predicate_expression(&mut self) -> (r: Result<Expression, SyntaxError>)
        requires
            old(self).wf(),
        ensures
            r matches Ok(x) ==> binary_at_least(x, 3),
            r matches Err(e) ==> error_located(old(self).tokens@, old(self).end_offset, e),
            old(self).moved_to(final(self)),
            r matches Ok(x) ==> old(self).produced(final(self), x.spec_span()),
        decreases old(self).tokens@.len() - old(self).position, 7nat,
    {
        let left = self.parse_concatenation_expression()?;
        let comparison = match self.current_kind() {
            Some(TokenKind::Equal) => Some(BinaryOperator::Equal),
            Some(TokenKind::NotEqual) => Some(BinaryOperator::NotEqual),
            Some(TokenKind::Less) => Some(BinaryOperator::Less),
            Some(TokenKind::LessEqual) => Some(BinaryOperator::LessEqual),
            Some(TokenKind::Greater) => Some(BinaryOperator::Greater),
            Some(TokenKind::GreaterEqual) => Some(BinaryOperator::GreaterEqual),
            _ => None,
        };
        if let Some(operator) = comparison {
            self.bump();
            let right = self.parse_concatenation_expression()?;
            return Ok(binary_expression(left, operator, right));
        }
        if self.eat(TokenKind::Is).is_some() {
            let negated = self.eat(TokenKind::Not).is_some();
            let null = self.expect(TokenKind::Null, "`NULL`")?;
            let span = Span::new(left.span().start, null.span.end);
            return Ok(Expression::IsNull { expression: Box::new(left), negated, span });
        }
        let negated = self.at(TokenKind::Not) && self.peek_is(1, TokenKind::In);
        if negated {
            self.bump();
        }
        if negated || self.at(TokenKind::In) {
            return self.parse_in_predicate(left, negated);
        }
        Ok(left)
    }

    fn parse_in_predicate(&mut self, left: Expression, negated: bool) -> (r: Result<Expression, SyntaxError>)
        requires
            old(self).wf(),
            old(self).position > 0,
        ensures
            r matches Ok(x) ==> !(x is Binary),
            r matches Err(e) ==> error_located(old(self).tokens@, old(self).end_offset, e),
            old(self).moved_to(final(self)),
            r matches Ok(x) ==> old(self).position < final(self).position && x.spec_span() == (Span {
                start: left.spec_span().start,
                end: final(self).tokens@[final(self).position - 1].span.end,
            }),
        decreases old(self).tokens@.len() - old(self).position, 1nat,
    {
        self.expect(TokenKind::In, "`IN`")?;
        self.expect(TokenKind::LeftParenthesis, "`(`")?;
        if self.in_contents_is_query() {
            let query = self.parse_query_expression()?;
            let right_parenthesis = self.expect(TokenKind::RightParenthesis, "`)`")?;
            let span = Span::new(left.span().start, right_parenthesis.span.end);
            return Ok(Expression::InQuery {
                expression: Box::new(left),
                negated,
                query: Box::new(query),
                span,
            });
        }
        let values = self.parse_expression_list()?;
        let right_parenthesis = self.expect(TokenKind::RightParenthesis, "`)`")?;
        let span = Span::new(left.span().start, right_parenthesis.span.end);
        Ok(Expression::InList { expression: Box::new(left), negated, values, span })
    }

    /// The query and expression-list alternatives can both begin with `(`.
    /// After any query parentheses, however, a query must begin with `SELECT`
    /// or `WITH`, neither of which can begin a scalar expression.
    fn in_contents_is_query(&self) -> (r: bool)
        requires
            self.wf(),
        ensures
            r == exists|m: int|
                self.position <= m && (forall|j: int|
                    self.position <= j < m ==> (#[trigger] self.tokens@[j]).kind == TokenKind::LeftParenthesis)
                    && #[trigger] opens_query(self.tokens@, m),
    {
        let mut lookahead: usize = 0;
        while self.position + lookahead < self.tokens.len()
            && self.tokens[self.position + lookahead].kind == TokenKind::LeftParenthesis
            invariant
                self.wf(),
                self.position + lookahead <= self.tokens@.len(),
                forall|j: int|
                    self.position <= j < self.position + lookahead ==> (#[trigger] self.tokens@[j]).kind
                        == TokenKind::LeftParenthesis,
            decreases self.tokens@.len() - self.position - lookahead,
        {
            lookahead = lookahead + 1;
        }
        let r = self.peek_is(lookahead, TokenKind::Select) || self.peek_is(lookahead, TokenKind::With);
        proof {
            let at = self.position + lookahead;
            if r {
                assert(opens_query(self.tokens@, at));
            } else {
                assert forall|m: int|
                    self.position <= m && (forall|j: int|
                        self.position <= j < m ==> (#[trigger] self.tokens@[j]).kind == TokenKind::LeftParenthesis)
                    implies !#[trigger] opens_query(self.tokens@, m) by {
                    if m < at {
                        assert(self.tokens@[m].kind == TokenKind::LeftParenthesis);
                    } else if m > at {
                        assert(self.tokens@[at].kind == TokenKind::LeftParenthesis);
                    }
                }
            }
        }
        r
    }

    fn parse_concatenation_expression(&mut self) -> (r: Result<Expression, SyntaxError>)
        requires
            old(self).wf(),
        ensures
            r matches Ok(x) ==> old(self).level_written(final(self), x, 4nat),
            r matches Err(e) ==> error_located(old(self).tokens@, old(self).end_offset, e),
            old(self).moved_to(final(self)),
            r matches Ok(x) ==> old(self).produced(final(self), x.spec_span()),
        decreases old(self).tokens@.len() - old(self).position, 6nat,
    {
        let ghost entry = *self;
        let mut left = self.parse_additive_expression()?;
        loop
            invariant
                entry == *old(self),
                entry.moved_to(self),
                entry.produced(self, left.spec_span()),
                entry.level_written(self, left, 4nat),
            decreases self.tokens@.len() - self.position,
        {
            let ghost operator_position = self.position as int;
            if self.eat(TokenKind::Concatenate).is_none() {
                break;
            }
            let right = self.parse_additive_expression()?;
            left = binary_expression(left, BinaryOperator::Concatenate, right);
            assert(entry.level_written(self, left, 4nat)) by {
                assert(entry.tokens@[operator_position].kind == operator_token(left->Binary_operator));
            }
        }
        Ok(left)
    }

    fn parse_additive_expression(&mut self) -> (r: Result<Expression, SyntaxError>)
        requires
            old(self).wf(),
        ensures
            r matches Ok(x) ==> old(self).level_written(final(self), x, 5nat),
            r matches Err(e) ==> error_located(old(self).tokens@, old(self).end_offset, e),
            old(self).moved_to(final(self)),
            r matches Ok(x) ==> old(self).produced(final(self), x.spec_span()),
        decreases old(self).tokens@.len() - old(self).position, 5nat,
    {
        let ghost entry = *self;
        let mut left = self.parse_multiplicative_expression()?;
        loop
            invariant
                entry == *old(self),
                entry.moved_to(self),
                entry.produced(self, left.spec_span()),
                entry.level_written(self, left, 5nat),
            decreases self.tokens@.len() - self.position,
        {
            let ghost operator_position = self.position as int;
            let operator = if self.eat(TokenKind::Plus).is_some() {
                BinaryOperator::Add
            } else if self.eat(TokenKind::Minus).is_some() {
                BinaryOperator::Subtract
            } else {
                break;
            };
            let right = self.parse_multiplicative_expression()?;
            left = binary_expression(left, operator, right);
            assert(entry.level_written(self, left, 5nat)) by {
                assert(entry.tokens@[operator_position].kind == operator_token(left->Binary_operator));
            }
        }
        Ok(left)
    }

    fn parse_multiplicative_expression(&mut self) -> (r: Result<Expression, SyntaxError>)
        requires
            old(self).wf(),
        ensures
            r matches Ok(x) ==> old(self).level_written(final(self), x, 6nat),
            r matches Err(e) ==> error_located(old(self).tokens@, old(self).end_offset, e),
            old(self).moved_to(final(self)),
            r matches Ok(x) ==> old(self).produced(final(self), x.spec_span()),
        decreases old(self).tokens@.len() - old(self).position, 4nat,
    {
        let ghost entry = *self;
        let mut left = self.parse_unary_expression()?;
        loop
            invariant
                entry == *old(self),
                entry.moved_to(self),
                entry.produced(self, left.spec_span()),
                entry.level_written(self, left, 6nat),
            decreases self.tokens@.len() - self.position,
        {
            let ghost operator_position = self.position as int;
            let operator = if self.eat(TokenKind::Star).is_some() {
                BinaryOperator::Multiply
            } else if self.eat(TokenKind::Slash).is_some() {
                BinaryOperator::Divide
            } else if self.eat(TokenKind::Percent).is_some() {
                BinaryOperator::Remainder
            } else {
                break;
            };
            let right = self.parse_unary_expression()?;
            left = binary_expression(left, operator, right);
            assert(entry.level_written(self, left, 6nat)) by {
                assert(entry.tokens@[operator_position].kind == operator_token(left->Binary_operator));
            }
        }
        Ok(left)
    }

    fn parse_unary_expression(&mut self) -> (r: Result<Expression, SyntaxError>)
        requires
            old(self).wf(),
        ensures
            r matches Ok(x) ==> !(x is Binary),
            r matches Err(e) ==> error_located(old(self).tokens@, old(self).end_offset, e),
            old(self).moved_to(final(self)),
            r matches Ok(x) ==> old(self).produced(final(self), x.spec_span()),
        decreases old(self).tokens@.len() - old(self).position, 3nat,
    {
        let (token, operator) = if let Some(token) = self.eat(TokenKind::Plus) {
            (token, UnaryOperator::Positive)
        } else if let Some(token) = self.eat(TokenKind::Minus) {
            (token, UnaryOperator::Negative)
        } else {
            return self.parse_primary_expression();
        };
        let expression = self.parse_unary_expression()?;
        let span = Span::new(token.span.start, expression.span().end);
        Ok(Expression::Unary { operator, expression: Box::new(expression), span })
    }

    fn parse_primary_expression(&mut self) -> (r: Result<Expression, SyntaxError>)
        requires
            old(self).wf(),
        ensures
            r matches Ok(x) ==> !(x is Binary),
            r matches Err(e) ==> error_located(old(self).tokens@, old(self).end_offset, e),
            old(self).moved_to(final(self)),
            r matches Ok(x) ==> old(self).produced(final(self), x.spec_span()),
        decreases old(self).tokens@.len() - old(self).position, 2nat,
    {
        match self.current() {
            Some(token) => {
                match token.kind {
                    TokenKind::IntegerLiteral => {
                        let literal = self.parse_integer_literal()?;
                        Ok(Expression::Literal(Literal::Integer(literal)))
                    },
                    TokenKind::TextLiteral => {
                        self.bump();
                        Ok(Expression::Literal(Literal::Text(TextLiteral { span: token.span })))
                    },
                    TokenKind::True | TokenKind::False => {
                        self.bump();
                        Ok(
                            Expression::Literal(
                                Literal::Boolean {
                                    value: token.kind == TokenKind::True,
                                    span: token.span,
                                },
                            ),
                        )
                    },
                    TokenKind::Null => {
                        self.bump();
                        Ok(Expression::Literal(Literal::Null { span: token.span }))
                    },
                    TokenKind::Identifier | TokenKind::DelimitedIdentifier => {
                        self.parse_column_reference()
                    },
                    TokenKind::LeftParenthesis => self.parse_parenthesized_expression(),
                    TokenKind::Case => self.parse_case_expression(),
                    TokenKind::Cast => self.parse_cast_expression(),
                    TokenKind::Exists => self.parse_exists_expression(),
                    TokenKind::Count | TokenKind::Sum | TokenKind::Min | TokenKind::Max
                    | TokenKind::BoolAnd | TokenKind::BoolOr => self.parse_aggregate_expression(),
                    TokenKind::RowNumber | TokenKind::Rank | TokenKind::DenseRank => {
                        self.parse_ranking_expression()
                    },
                    _ => Err(self.error("an expression")),
                }
            },
            None => Err(self.error("an expression")),
        }
    }

    fn parse_column_reference(&mut self) -> (r: Result<Expression, SyntaxError>)
        requires
            old(self).wf(),
        ensures
            r matches Ok(x) ==> !(x is Binary),
            r matches Err(e) ==> error_located(old(self).tokens@, old(self).end_offset, e),
            old(self).moved_to(final(self)),
            r matches Ok(x) ==> old(self).produced(final(self), x.spec_span()),
            ({
                let tokens = old(self).tokens@;
                let at = old(self).position as int;
                if !identifier_at(tokens, at) {
                    r is Err
                } else if at + 1 < tokens.len() && tokens[at + 1].kind == TokenKind::Dot {
                    &&& r is Ok <==> identifier_at(tokens, at + 2)
                    &&& r matches Ok(x) ==> x matches Expression::ColumnReference { qualifier: Some(q), name, .. }
                        && q == identifier_of(tokens, at) && name == identifier_of(tokens, at + 2)
                        && final(self).position == at + 3
                } else {
                    r matches Ok(x) && x matches Expression::ColumnReference { qualifier: None, name, .. } && name
                        == identifier_of(tokens, at) && final(self).position == at + 1
                }
            }),
    {
        let first = self.parse_identifier()?;
        if self.eat(TokenKind::Dot).is_some() {
            let name = self.parse_identifier()?;
            let span = Span::new(first.span.start, name.span.end);
            Ok(Expression::ColumnReference { qualifier: Some(first), name, span })
        } else {
            Ok(Expression::ColumnReference { qualifier: None, name: first, span: first.span })
        }
    }

    fn parse_parenthesized_expression(&mut self) -> (r: Result<Expression, SyntaxError>)
        requires
            old(self).wf(),
        ensures
            r matches Ok(x) ==> !(x is Binary),
            r matches Err(e) ==> error_located(old(self).tokens@, old(self).end_offset, e),
            old(self).moved_to(final(self)),
            r matches Ok(x) ==> old(self).produced(final(self), x.spec_span()),
        decreases old(self).tokens@.len() - old(self).position, 1nat,
    {
        let left_parenthesis = self.expect(TokenKind::LeftParenthesis, "`(`")?;
        let expression = self.parse_expression()?;
        let right_parenthesis = self.expect(TokenKind::RightParenthesis, "`)`")?;
        Ok(Expression::Parenthesized {
            expression: Box::new(expression),
            span: Span::new(left_parenthesis.span.start, right_parenthesis.span.end),
        })
    }

    fn parse_case_expression(&mut self) -> (r: Result<Expression, SyntaxError>)
        requires
            old(self).wf(),
        ensures
            r matches Ok(x) ==> !(x is Binary),
            r matches Err(e) ==> error_located(old(self).tokens@, old(self).end_offset, e),
            old(self).moved_to(final(self)),
            r matches Ok(x) ==> old(self).produced(final(self), x.spec_span()),
        decreases old(self).tokens@.len() - old(self).position, 1nat,
    {
        let ghost entry = *self;
        let start = self.mark();
        self.expect(TokenKind::Case, "`CASE`")?;
        let mut branches = vec![self.parse_when_clause()?];
        loop
            invariant
                entry == *old(self),
                entry.moved_to(self),
                entry.position < self.position,
            decreases self.tokens@.len() - self.position,
        {
            if !self.at(TokenKind::When) {
                break;
            }
            branches.push(self.parse_when_clause()?);
        }
        let else_expression = if self.eat(TokenKind::Else).is_some() {
            Some(Box::new(self.parse_expression()?))
        } else {
            None
        };
        self.expect(TokenKind::End, "`END`")?;
        Ok(Expression::Case { branches, else_expression, span: self.span_since(start) })
    }

    fn parse_when_clause(&mut self) -> (r: Result<WhenClause, SyntaxError>)
        requires
            old(self).wf(),
        ensures
            r matches Err(e) ==> error_located(old(self).tokens@, old(self).end_offset, e),
            old(self).moved_to(final(self)),
            r matches Ok(x) ==> old(self).produced(final(self), x.span),
        decreases old(self).tokens@.len() - old(self).position, 1nat,
    {
        let start = self.mark();
        self.expect(TokenKind::When, "`WHEN`")?;
        let condition = self.parse_expression()?;
        self.expect(TokenKind::Then, "`THEN`")?;
        let result = self.parse_expression()?;
        Ok(WhenClause { condition, result, span: self.span_since(start) })
    }

    fn parse_cast_expression(&mut self) -> (r: Result<Expression, SyntaxError>)
        requires
            old(self).wf(),
        ensures
            r matches Ok(x) ==> !(x is Binary),
            r matches Err(e) ==> error_located(old(self).tokens@, old(self).end_offset, e),
            old(self).moved_to(final(self)),
            r matches Ok(x) ==> old(self).produced(final(self), x.spec_span()),
        decreases old(self).tokens@.len() - old(self).position, 1nat,
    {
        let start = self.mark();
        self.expect(TokenKind::Cast, "`CAST`")?;
        self.expect(TokenKind::LeftParenthesis, "`(`")?;
        let expression = self.parse_expression()?;
        self.expect(TokenKind::As, "`AS`")?;
        let scalar_type = match self.current_kind() {
            Some(TokenKind::Boolean) => {
                self.bump();
                ScalarType::Boolean
            },
            Some(TokenKind::Int64) => {
                self.bump();
                ScalarType::Int64
            },
            Some(TokenKind::Text) => {
                self.bump();
                ScalarType::Text
            },
            _ => {
                return Err(self.error("`BOOLEAN`, `INT64`, or `TEXT`"));
            },
        };
        self.expect(TokenKind::RightParenthesis, "`)`")?;
        Ok(Expression::Cast {
            expression: Box::new(expression),
            scalar_type,
            span: self.span_since(start),
        })
    }

    fn parse_exists_expression(&mut self) -> (r: Result<Expression, SyntaxError>)
        requires
            old(self).wf(),
        ensures
            r matches Ok(x) ==> !(x is Binary),
            r matches Err(e) ==> error_located(old(self).tokens@, old(self).end_offset, e),
            old(self).moved_to(final(self)),
            r matches Ok(x) ==> old(self).produced(final(self), x.spec_span()),
        decreases old(self).tokens@.len() - old(self).position, 1nat,
    {
        let start = self.mark();
        self.expect(TokenKind::Exists, "`EXISTS`")?;
        self.expect(TokenKind::LeftParenthesis, "`(`")?;
        let query = self.parse_query_expression()?;
        self.expect(TokenKind::RightParenthesis, "`)`")?;
        Ok(Expression::Exists { query: Box::new(query), span: self.span_since(start) })
    }

    fn parse_aggregate_expression(&mut self) -> (r: Result<Expression, SyntaxError>)
        requires
            old(self).wf(),
        ensures
            r matches Ok(x) ==> !(x is Binary),
            r matches Err(e) ==> error_located(old(self).tokens@, old(self).end_offset, e),
            old(self).moved_to(final(self)),
            r matches Ok(x) ==> old(self).produced(final(self), x.spec_span()),
        decreases old(self).tokens@.len() - old(self).position, 1nat,
    {
        let start = self.mark();
        let function = match self.current_kind() {
            Some(TokenKind::Count) => AggregateFunction::Count,
            Some(TokenKind::Sum) => AggregateFunction::Sum,
            Some(TokenKind::Min) => AggregateFunction::Min,
            Some(TokenKind::Max) => AggregateFunction::Max,
            Some(TokenKind::BoolAnd) => AggregateFunction::BoolAnd,
            Some(TokenKind::BoolOr) => AggregateFunction::BoolOr,
            _ => {
                return Err(self.error("an aggregate function"));
            },
        };
        self.bump();
        self.expect(TokenKind::LeftParenthesis, "`(`")?;
        let argument = if function == AggregateFunction::Count && self.at(TokenKind::Star) {
            let star = self.tokens[self.position];
            self.bump();
            AggregateArgument::Star(star.span)
        } else {
            AggregateArgument::Expression(Box::new(self.parse_expression()?))
        };
        self.expect(TokenKind::RightParenthesis, "`)`")?;
        let window = if self.eat(TokenKind::Over).is_some() {
            let window_start = self.mark() - 1;
            self.expect(TokenKind::LeftParenthesis, "`(`")?;
            let partition_by = if self.eat(TokenKind::Partition).is_some() {
                self.expect(TokenKind::By, "`BY`")?;
                self.parse_expression_list()?
            } else {
                Vec::new()
            };
            self.expect(TokenKind::RightParenthesis, "`)`")?;
            Some(AggregateWindow { partition_by, span: self.span_since(window_start) })
        } else {
            None
        };
        Ok(Expression::Aggregate { function, argument, window, span: self.span_since(start) })
    }

    fn parse_ranking_expression(&mut self) -> (r: Result<Expression, SyntaxError>)
        requires
            old(self).wf(),
        ensures
            r matches Ok(x) ==> !(x is Binary),
            r matches Err(e) ==> error_located(old(self).tokens@, old(self).end_offset, e),
            old(self).moved_to(final(self)),
            r matches Ok(x) ==> old(self).produced(final(self), x.spec_span()),
        decreases old(self).tokens@.len() - old(self).position, 1nat,
    {
        let ghost entry = *self;
        let start = self.mark();
        let function = match self.current_kind() {
            Some(TokenKind::RowNumber) => RankingFunction::RowNumber,
            Some(TokenKind::Rank) => RankingFunction::Rank,
            Some(TokenKind::DenseRank) => RankingFunction::DenseRank,
            _ => {
                return Err(self.error("a ranking function"));
            },
        };
        self.bump();
        self.expect(TokenKind::LeftParenthesis, "`(`")?;
        self.expect(TokenKind::RightParenthesis, "`)`")?;
        self.expect(TokenKind::Over, "`OVER`")?;
        self.expect(TokenKind::LeftParenthesis, "`(`")?;
        let partition_by = if self.eat(TokenKind::Partition).is_some() {
            self.expect(TokenKind::By, "`BY`")?;
            self.parse_expression_list()?
        } else {
            Vec::new()
        };
        self.expect(TokenKind::Order, "`ORDER`")?;
        self.expect(TokenKind::By, "`BY`")?;
        let mut order_by = vec![self.parse_order_item()?];
        loop
            invariant
                entry == *old(self),
                entry.moved_to(self),
                entry.position < self.position,
            decreases self.tokens@.len() - self.position,
        {
            if self.eat(TokenKind::Comma).is_none() {
                break;
            }
            order_by.push(self.parse_order_item()?);
        }
        self.expect(TokenKind::RightParenthesis, "`)`")?;
        Ok(Expression::Ranking { function, partition_by, order_by, span: self.span_since(start) })
    }

    fn parse_identifier(&mut self) -> (r: Result<Identifier, SyntaxError>)
        requires
            old(self).wf(),
        ensures
            r matches Err(e) ==> error_located(old(self).tokens@, old(self).end_offset, e),
            old(self).moved_to(final(self)),
            r matches Ok(x) ==> old(self).produced(final(self), x.span) && final(self).position
                == old(self).position + 1,
            r is Ok <==> identifier_at(old(self).tokens@, old(self).position as int),
            r matches Ok(x) ==> x == identifier_of(old(self).tokens@, old(self).position as int),
            r is Err ==> final(self).position == old(self).position,
    {
        let token = match self.current() {
            Some(token) => token,
            None => {
                return Err(self.error("an identifier"));
            },
        };
        let kind = if token.kind == TokenKind::Identifier {
            IdentifierKind::Regular
        } else if token.kind == TokenKind::DelimitedIdentifier {
            IdentifierKind::Delimited
        } else {
            return Err(self.error("an identifier"));
        };
        self.bump();
        Ok(Identifier { kind, span: token.span })
    }

    fn parse_integer_literal(&mut self) -> (r: Result<IntegerLiteral, SyntaxError>)
        requires
            old(self).wf(),
        ensures
            r matches Err(e) ==> error_located(old(self).tokens@, old(self).end_offset, e),
            old(self).moved_to(final(self)),
            r matches Ok(x) ==> old(self).produced(final(self), x.span),
    {
        let token = self.expect(TokenKind::IntegerLiteral, "an integer literal")?;
        Ok(IntegerLiteral { span: token.span })
    }

    fn mark(&self) -> (r: usize)
        ensures
            r == self.position,
    {
        self.position
    }

    fn span_since(&self, start: usize) -> (span: Span)
        requires
            self.wf(),
            start < self.position,
        ensures
            span == covering(self.tokens@, start as int, self.position as int),
    {
        let first = self.tokens[start];
        let last = self.tokens[self.position - 1];
        Span::new(first.span.start, last.span.end)
    }

    fn current(&self) -> (r: Option<Token>)
        requires
            self.wf(),
        ensures
            r == (if self.position < self.tokens@.len() {
                Some(self.tokens@[self.position as int])
            } else {
                None::<Token>
            }),
    {
        if self.position < self.tokens.len() {
            Some(self.tokens[self.position])
        } else {
            None
        }
    }

    fn current_kind(&self) -> (r: Option<TokenKind>)
        requires
            self.wf(),
        ensures
            r == (if self.position < self.tokens@.len() {
                Some(self.tokens@[self.position as int].kind)
            } else {
                None::<TokenKind>
            }),
    {
        match self.current() {
            Some(token) => Some(token.kind),
            None => None,
        }
    }

    fn peek_is(&self, lookahead: usize, kind: TokenKind) -> (r: bool)
        requires
            self.wf(),
        ensures
            r == (self.position + lookahead < self.tokens@.len() && self.tokens@[self.position
                + lookahead].kind == kind),
    {
        lookahead < self.tokens.len() - self.position && self.tokens[self.position
            + lookahead].kind == kind
    }

    fn at(&self, kind: TokenKind) -> (r: bool)
        requires
            self.wf(),
        ensures
            r == (self.position < self.tokens@.len() && self.tokens@[self.position as int].kind
                == kind),
    {
        self.position < self.tokens.len() && self.tokens[self.position].kind == kind
    }

    fn at_identifier(&self) -> (r: bool)
        requires
            self.wf(),
        ensures
            r == (self.position < self.tokens@.len() && (self.tokens@[self.position as int].kind
                == TokenKind::Identifier || self.tokens@[self.position as int].kind
                == TokenKind::DelimitedIdentifier)),
    {
        self.at(TokenKind::Identifier) || self.at(TokenKind::DelimitedIdentifier)
    }

    fn bump(&mut self) -> (r: Option<Token>)
        requires
            old(self).wf(),
        ensures
            old(self).moved_to(final(self)),
            old(self).position < old(self).tokens@.len() ==> r == Some(
                old(self).tokens@[old(self).position as int],
            ) && final(self).position == old(self).position + 1,
            old(self).position >= old(self).tokens@.len() ==> r is None && final(self).position
                == old(self).position,
    {
        let token = self.current()?;
        self.position = self.position + 1;
        Some(token)
    }

    fn eat(&mut self, kind: TokenKind) -> (r: Option<Token>)
        requires
            old(self).wf(),
        ensures
            old(self).moved_to(final(self)),
            (old(self).position < old(self).tokens@.len() && old(self).tokens@[old(
                self,
            ).position as int].kind == kind) ==> r == Some(
                old(self).tokens@[old(self).position as int],
            ) && final(self).position == old(self).position + 1,
            !(old(self).position < old(self).tokens@.len() && old(self).tokens@[old(
                self,
            ).position as int].kind == kind) ==> r is None && final(self).position == old(
                self,
            ).position,
    {
        if self.at(kind) {
            self.bump()
        } else {
            None
        }
    }

    fn expect(&mut self, kind: TokenKind, expected: &'static str) -> (r: Result<Token, SyntaxError>)
        requires
            old(self).wf(),
        ensures
            r matches Err(e) ==> error_located(old(self).tokens@, old(self).end_offset, e),
            old(self).moved_to(final(self)),
            r matches Ok(t) ==> old(self).position < old(self).tokens@.len() && t == old(
                self,
            ).tokens@[old(self).position as int] && t.kind == kind && final(self).position == old(
                self,
            ).position + 1,
            r is Err ==> final(self).position == old(self).position,
    {
        match self.eat(kind) {
            Some(token) => Ok(token),
            None => Err(self.error(expected)),
        }
    }

    fn error(&self, expected: &'static str) -> (e: SyntaxError)
        requires
            self.wf(),
        ensures
            e.expected == expected,
            self.position < self.tokens@.len() ==> e.found == Some(
                self.tokens@[self.position as int].kind,
            ) && e.span == self.tokens@[self.position as int].span,
            self.position >= self.tokens@.len() ==> e.found is None && e.span == (Span {
                start: self.end_offset,
                end: self.end_offset,
            }),
    {
        match self.current() {
            Some(token) => SyntaxError { expected, found: Some(token.kind), span: token.span },
            None => SyntaxError {
                expected,
                found: None,
                span: Span::new(self.end_offset, self.end_offset),
            },
        }
    }
}

fn binary_expression(left: Expression, operator: BinaryOperator, right: Expression) -> (e: Expression)
    ensures
        e matches Expression::Binary { left: l, operator: o, right: r, .. } && *l == left && o == operator && *r
            == right,
        e.spec_span() == (Span { start: left.spec_span().start, end: right.spec_span().end }),
{
    let span = Span::new(left.span().start, right.span().end);
    Expression::Binary { left: Box::new(left), operator, right: Box::new(right), span }
}

} // verus!
