//! The ShapeSQL language: lexing, parsing, binding, typing, lowering to
//! Shape IR, validation, interchange, and evaluation.

pub mod ast;
mod bind;
mod catalog;
mod document;
pub mod hir;
pub mod interchange;
mod evaluation;
mod frontend;
mod identity;
mod lexer;
mod lower;
mod name;
mod parser;
pub mod shape_ir;
mod typecheck;
mod types;

pub use bind::{bind, BindError, BindErrorKind};
pub use evaluation::{
    evaluate, EvaluateError, EvaluationError, EvaluationErrorKind, EvaluationResult, InputError,
    InputErrorKind, InputField, InputRelation, Row, Snapshot, SnapshotError, Value,
};
pub use frontend::{parse_owned, ParsedProgram};
pub use catalog::{Catalog, CatalogField, CatalogRelation, RelationBinding};
pub use identity::{CteId, FieldId, RelationOccurrenceId};
pub use lexer::{lex, LexError, LexErrorKind, Span, Token, TokenKind};
pub use lower::lower;
pub use name::Name;
pub use parser::{parse, ParseError, SyntaxError};
pub use typecheck::{type_check, TypeError, TypeErrorKind};
pub use types::{ScalarType, TypeDescriptor};
