pub mod text;
pub mod token;
pub mod error;
pub mod scanner;
pub mod ast;
pub mod parser;
pub mod grammar;
pub mod lexing;
pub mod pipeline;
