//! Commands that run in panes, and how their end is noticed.
//!
//! A tracked command is typed between two `echo` commands. The first prints a start marker, the
//! second an end marker with the exit code. What a pane shows is searched for these markers.

pub mod command_laws;
pub mod markers;
pub mod retention;
pub mod status;
pub mod tracker;

pub use markers::{
    extract_exit_code, get_end_marker, get_start_marker, parse_command_output, END_MARKER_PREFIX,
    START_MARKER_PREFIX,
};
pub use retention::TrackingConfig;
pub use tracker::CommandTracker;
