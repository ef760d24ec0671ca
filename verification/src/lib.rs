//! A verified coding-challenge toolkit.
//!
//! The heart of the crate is a hand-rolled JSON document parser: a
//! character-level lexer ([`jlexer`]), a grammar validator that turns the
//! token stream into validated partial tokens ([`jparser`]), and a tree
//! builder that assembles the document tree ([`jparser_types`] holds its data
//! model). Around it stand a Huffman compression core ([`huffman`]), a
//! word-count core ([`wc`]) and HTTP message parsing ([`http`]).
//!
//! Every stage of the JSON parser is pinned down by a functional
//! specification: one lexer step by [`jlexer::lex_next`], one validation step
//! by [`jparser::pp_step`], and a whole parse by [`jparser::spec_parse`].

pub mod http;
pub mod huffman;
pub mod jdatatypes;
pub mod jlexer;
pub mod jparser;
pub mod jparser_types;
pub mod strutil;
pub mod wc;
