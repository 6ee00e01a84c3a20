//! Verified core of the Bowties LCC layout tool: layout documents, node
//! snapshots, offline change tracking and syncing, CDI address resolution,
//! configuration reads and writes, and the configuration-memory value codecs.

pub mod text;
pub mod strmap;
pub mod stamps;
pub mod layout_types;
pub mod node_id;
pub mod snapshot;
pub mod manifest;
pub mod layout_io;
pub mod offline;
pub mod cdi;
pub mod cdi_cache;
pub mod cdi_details;
pub mod codec;
pub mod values;
pub mod config_read;
pub mod config_write;
pub mod card;
pub mod sync;
pub mod facility;
pub mod diagnostics;
pub mod nodes;
pub mod capture;
pub mod connector;
pub mod placeholders;
pub mod event_roles;
pub mod save_plan;
pub mod columns;
pub mod catalog_overlay;
