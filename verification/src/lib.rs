//! Salvage reader for block-compressed alignment files: a BGZF block engine
//! that can resynchronise after damage, and a record extractor that turns the
//! surviving alignment records into FASTA or FASTQ text.

pub mod error;
pub mod codec;
pub mod le;
pub mod checksum;
pub mod inflate;
pub mod source;
pub mod bgzf;
pub mod record;
pub mod extract;
pub mod theorems;
pub mod resync;
pub mod files;
pub mod reads;

pub use crate::error::{BamErrorKind, BamHandleError};
pub use crate::extract::{retrieve_fastq, Counters, Extractor, Options};
