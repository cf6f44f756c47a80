//! A tag manager's verified core: free-form tags for music tracks whose
//! authoritative metadata lives in three independently mutable stores —
//! the audio file's tag chunk, a local cache, and an external media
//! library application. The hard part is keeping the three convergent:
//! the tag codec multiplexing user text and tags into one comment field,
//! the three-phase diff-and-reconcile sync engine, and the compensating
//! undo/redo log, all with proved contracts. File, gateway and watch I/O
//! stay with the caller, which hands plain values in and out.

pub mod codec;
pub mod commands;
pub mod db;
pub mod find;
pub mod logbuf;
pub mod model;
pub mod paths;
pub mod strutil;
pub mod sync;
pub mod undo;
pub mod watch;
