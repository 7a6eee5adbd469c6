//! Collection and layout of a compact host summary: each probe turns the raw
//! text or counters that the host exposes into one display field, and the
//! report lays those fields out in a fixed twelve-line block.

pub mod init;
pub mod laws;
pub mod probes;
pub mod report;
pub mod seconds;
pub mod storage;
pub mod text;
pub mod units;

pub use init::{classify_init, detect_init, InitKind};
pub use probes::{
    extract_kb, format_uptime, get_hostname, get_kernel, get_memory, get_os, get_shell, get_swap,
    get_uptime, get_username,
};
pub use report::{HostState, Report};
pub use storage::{get_storage, select_mount, MountEntry};
