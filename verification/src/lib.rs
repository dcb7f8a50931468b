//! Decoding and encoding of line-oriented genome-assembly interchange
//! formats: a graph format with header, segment, link, containment and
//! path records, and two alignment-record formats that share one
//! tab-delimited grammar.

pub mod cigar;
pub mod digits;
pub mod error;
pub mod fields;
pub mod gafpaf;
pub mod gfa;
pub mod optfields;
pub mod parser;
