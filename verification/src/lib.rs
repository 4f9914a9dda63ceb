//! A file-backed history store: records of several shapes are appended to a
//! backing file as self-describing byte strings, read back in order, and
//! trimmed to a maximum count.
//!
//! Everything here works on plain values. A caller reads the bytes of a
//! backing file, hands them to the store, and writes back what the store
//! returns.

pub mod config;
pub mod entries;
pub mod history;
pub mod record;
pub mod retention;
pub mod scope;
pub mod sequence;
pub mod splits;
pub mod store;
pub mod wire;

pub use config::{PersistenceConfig, PersistenceConfigOption, PersistenceType};
pub use entries::{FileHistoryEntry, Range, Selection, ViewPosition};
pub use record::Record;
pub use scope::PersistenceScope;
pub use splits::{Layout, SplitEntry, SplitEntryLeaf, SplitEntryNode, SplitEntryTree};
pub use store::DecodeError;
