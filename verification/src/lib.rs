pub mod code_gen;
pub mod parser;
pub mod pipeline;
pub mod scanner;
pub mod terminal;
pub mod text;
pub mod token;
