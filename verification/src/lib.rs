//! Utilities for local documentation launchers: discovery of a free TCP
//! port through a caller-supplied probe, and persistence of a single
//! bookmark string at a named store location.

pub mod ports;
pub mod store;
pub mod text;
pub mod url;

pub use ports::{find_available_port, PortError, PortProbe, VecProbe};
pub use store::{BookmarkStore, IoError, MemStore, Storage, StoreLocation};
pub use text::{parse_u32, trim_str, u32_decimal};
pub use url::doc_page_url;
