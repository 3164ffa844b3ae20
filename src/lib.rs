//! A compiler front-end for the Jack language: it turns source lines into
//! tokens, tokens into a parse tree, and the parse tree into stack-VM code.
pub mod text;
pub mod line;
pub mod reader;
pub mod tokens;
pub mod scan;
pub mod tokenizer;
pub mod parse_tree;
pub mod symbol_table;
pub mod vm_writer;
pub mod parser;
pub mod xml;
pub mod tree_xml;
