//! The runtime core of a tiling Wayland compositor: its window, tag and output
//! model, the per-output frame clock, layout transactions, the session lock,
//! the foreign-toplevel mirror and the configuration supervisor.
pub mod activation;
pub mod backend;
pub mod commit;
pub mod config;
pub mod foreign_toplevel;
pub mod frame;
pub mod geometry;
pub mod layout;
pub mod output;
pub mod output_power;
pub mod seq_facts;
pub mod session_lock;
pub mod signal;
pub mod state;
pub mod tag;
pub mod tag_set;
pub mod transaction;
pub mod window;
