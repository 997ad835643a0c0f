pub mod attrs;
pub mod dom;
pub mod edit;
pub mod element;
pub mod extract;
pub mod matcher;
pub mod navigate;
pub mod selectors;
pub mod text;
pub mod serialize;
pub mod pseudo;
pub mod search;
pub mod parse;
pub mod fast_parser;
pub mod cleanup;
pub mod html_parse;
pub mod laws;
pub mod sink;
pub mod strings;
pub mod clone;
pub mod smooth;
pub mod input;
pub mod cache;
pub mod fast_model;
