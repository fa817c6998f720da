pub mod automata;
pub mod compiler;
pub mod config;
pub mod frame;
pub mod grammar;
pub mod io;
pub mod ir;
pub mod lexer;
pub mod matcher;
pub mod monitor;
pub mod ops;
pub mod parser;
pub mod symbolizer;
