//! Incremental mail-account mirroring: checkpointed collection sync into an
//! object store, content-addressed storage paths, a full-text indexing
//! pipeline, and restore reconciliation (set diff + topological ordering of
//! mailboxes by parent).

pub mod cli;
pub mod codec;
pub mod conf;
pub mod digits;
pub mod email;
pub mod helpers;
pub mod ids;
pub mod civil;
pub mod mailbox_progress;
pub mod paths;
pub mod progress;
pub mod restore;
pub mod rfc3339;
pub mod search;
pub mod sync;
