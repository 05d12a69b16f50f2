//! The entry model and mutation rules of a hosts-file editor: a hosts file is
//! parsed into an ordered table of lines, changed by exact-match rules, and
//! written back with comments and blank lines untouched.
pub mod edit;
pub mod laws;
pub mod line;
pub mod table;

pub use edit::{
    add_hosts_entry, current_entries, default_protected, is_protected, remove_hosts_entry,
    HostsError,
};
pub use line::{entry_fields_valid, Line};
pub use table::Table;
