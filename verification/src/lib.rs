//! Verified core of a local multi-stream log collector: stream buffers,
//! configuration rules, bounded framing, source reordering, archive cursors
//! and audits, persistent-stream decisions and their saved-history checks.
pub mod limits;
pub mod text;
pub mod order;
pub mod proto;
pub mod config;
pub mod record;
pub mod stream;
pub mod saved;
pub mod history;
pub mod supervisor;
pub mod replay;
pub mod reorder;
pub mod reorder_laws;
pub mod registry;
pub mod archive;
pub mod plugins;
pub mod plot;
pub mod frames;
