//! Reading and writing of PackFile containers: the binary archives in which a
//! family of strategy games bundles its tables, texts and other assets.

pub mod codec;
pub mod error;
pub mod version;
pub mod entry;
pub mod format;
pub mod packfile;
pub mod sort;
pub mod writer;
pub mod laws;
pub mod roundtrip;
