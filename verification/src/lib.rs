//! A verified parser for MSD documents: `#key:value;` records as used by
//! rhythm-game simfiles.
//!
//! A document is turned into records in two stages. The [`lexer`] cuts text
//! into tokens, and the [`parser`] assembles tokens into [`MSDParameter`]s.
//! Both stages come in two forms: a state machine that is handed input piece
//! by piece ([`lexer::Tokenizer`], [`parser::Assembler`]), and a reader over a
//! document held in memory ([`lexer::MSDLexer`], [`parser::MSDParser`]).

pub mod text;
pub mod lexer;
pub mod parameter;
pub mod parser;

pub use parameter::MSDParameter;
pub use parser::{parse_msd, MSDParserError};
