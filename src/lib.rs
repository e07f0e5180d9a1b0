//! A cache of localizable text-message archives: archives are opened on
//! demand through a layered filesystem, edited message by message, and only
//! the ones that changed are written back.

pub mod archive;
pub mod cache;
pub mod filesystem;
pub mod laws;

pub use crate::cache::{
    default_localized_value, ArchiveKey, TextData, TextDataDefinition, TextDataError,
};
