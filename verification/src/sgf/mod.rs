//! SGF (Smart Game Format): tokens, nodes, game trees and the parser.

pub mod text;
pub mod token;
pub mod error;
pub mod node;
pub mod tree;
pub mod parser;
pub mod round_trip;
