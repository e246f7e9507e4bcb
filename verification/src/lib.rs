//! Bookkeeping for exporting the elements of a compiled Typst page to JAnim:
//! the warnings that stand for what cannot be represented, and the collector
//! that numbers elements, indexes them into labelled groups and
//! de-duplicates shared data by id.

pub mod collect;
pub mod export;
pub mod maps;
pub mod warnings;
