//! Location lists for the Kakoune editor: reading the lists that grep and the
//! editor write, the range-specs and highlighters that show them, the lists
//! of a session by name, and the command line that keeps the shared list's
//! ranges up to date.

pub mod cli;
pub mod context;
pub mod location_list;
pub mod text;
pub mod types;
pub mod util;
