//! A verified file-list builder: it enumerates the filesystem items under a
//! source directory that belong in a backup manifest, applying an ordered set
//! of rules that can include, exclude, or substitute items as the traversal
//! proceeds.
//!
//! The walker operates on an explicit snapshot of the filesystem
//! ([`fs_model::FsModel`]): a finite list of entries, each an absolute path
//! with a link-aware classification. The caller builds the snapshot (and the
//! rule tables) from whatever source it has; everything from there on — the
//! depth-first traversal, symlink and cycle handling, rule evaluation and the
//! error taxonomy — is verified.

pub mod config;
pub mod fs_model;
pub mod history;
pub mod logger;
pub mod walker;

pub use config::{WalkerConfig, WalkerItemType, WalkerRule, WalkerRuleResult};
pub use logger::LoggerLevel;
pub use walker::{walk, WalkerErr, WalkerRuleErr};
