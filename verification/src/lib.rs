//! A compiler from annotated SCSS/CSS variable declarations to typed theme
//! objects, with its lexer, parser, semantic checks, tree lowering, code
//! generation and lint rules stated and proved with Verus.

pub mod text;
pub mod span;
pub mod diagnostics;
pub mod lexer;
pub mod ast;
pub mod parser;
pub mod sema;
pub mod ir;
pub mod codegen;
pub mod shapes;
pub mod holes;
pub mod ordering;
pub mod config;
pub mod linter;
pub mod lint_rules;
pub mod discovery;
pub mod driver;
