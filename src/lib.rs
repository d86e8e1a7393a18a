//! A USB device monitor's core: reading the enumeration listing, resolving
//! serial terminal paths, and reconciling successive snapshots into session
//! state and statistics.
pub mod device;
pub mod session;
pub mod text;
pub mod tty;
