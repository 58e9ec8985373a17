pub mod ast;
pub mod datum;
pub mod error;
pub mod laws;
pub mod lexer;
pub mod parser;
pub mod report;
pub mod span;
pub(crate) mod strings;
pub mod token;
pub mod transformer;

pub use ast::{Definition, Expression, ProcedureBody, Program};
pub use parser::{parser, Parser, TokenizeOrParseError};
pub use datum::{Datum, IntoTokens};
pub use error::{Expected, Failure, Label, ParseError, Reason};
pub use lexer::error::TokenizeError;
pub use lexer::{lexer, tokenize};
pub use span::{spanned, Span, Spanned};
pub use token::{BigInt, Keyword, Primitive, Real, Token};
pub use transformer::{builtin::{Begin, BuiltinTransformer}, datumize, datums, expansion, Transformer};
