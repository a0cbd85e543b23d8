//! Plain index files: the lengths of the documents, the terms with the
//! offsets of their posting lists, and posting lists without positions.
pub mod documents;
pub mod postings;
pub mod loader;
pub mod vocabulary;
