//! Normalises EDIFACT interchange documents: the delimiters declared in the
//! service-string-advice (UNA) header drive a segment splitter, and the
//! document is written back with exactly one segment per line.

pub mod segments;
pub mod splitter;
pub mod formatter;
pub mod canonical;
