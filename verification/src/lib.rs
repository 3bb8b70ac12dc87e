//! A small calculator engine: a tokenizer that turns input text into a
//! sequence of lexical tokens, and a fused parser/evaluator that walks the
//! token sequence under standard arithmetic precedence and produces an exact
//! rational result or a descriptive error.

pub mod app;
pub mod parser;
pub mod value;

pub use app::TemplateApp;
