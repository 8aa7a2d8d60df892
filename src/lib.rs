//! A replicated table store with per-column versioning.
//!
//! Every peer holds its own copy of a table of rows. Each cell carries a
//! version; peers converge by exchanging changesets and merging them cell by
//! cell. Each column keeps a history of earlier values that can be pruned
//! locally without coordination.
use vstd::prelude::*;

pub mod dag;
pub mod delta_sync;
pub mod error;
pub mod gc;
pub mod keyed;
pub mod laws;
pub mod merge;
pub mod network;
pub mod row;
pub mod storage;
pub mod sync;
pub mod table;
pub mod text;

pub use error::Error;
pub use gc::{run_gc, GcPolicy};
pub use merge::{MergeReport, TieBreakPolicy};
pub use network::{GcCoordinationResult, GcMessage, TcpGcCoordinator, TcpGcPeer};
pub use row::{InsertBuilder, RowView, UpdateBuilder};
pub use storage::{now_millis, Cell, DagNode, MemoryStorage, Row};
pub use sync::{ChangeCell, Changeset, HeadExchange, MeshSync, SyncResult, SyncSession};
pub use table::CrrTable;
pub use text::LegacyCrrTable;
