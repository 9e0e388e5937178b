//! Shared analysis state for language server sessions.
pub mod ordered;
pub mod access;
pub mod gc;
pub mod tokens;
pub mod keys;
pub mod config;
pub mod view;
pub mod spawn_key;
pub mod operations;
pub mod registry;
pub mod slots;
pub mod fx;
pub mod paths;
pub mod shared;
pub mod file_ids;
pub mod files;
pub mod inputs;
pub mod base;
pub mod overlay_files;
pub mod overlay;
pub mod graph;
pub mod overlay_build;
pub mod world;
pub mod rebuild;
pub mod sync;
pub mod privacy;
pub mod sessions;
pub mod update;
pub mod recone;
pub mod disk;
pub mod disk_roots;
pub mod load;
pub mod commit;
pub mod spawn;
pub mod pools;
pub mod build_data;
pub mod macros;
pub mod batch;
pub mod lookup;
pub mod open_files;
pub mod reload_state;
pub mod build_update;
pub mod switching;
pub mod reload;
pub mod text;
pub mod changes;
pub mod settings;
pub mod own_files;
pub mod runtime;
pub mod lsp_frame;
pub mod diagnostics;
pub mod flycheck;
pub mod dist;
pub mod reload_batch;
pub mod snapshots;
pub mod boundary;
pub mod packages;
pub mod session_overlay;
pub mod leave;
pub mod tasks;
pub mod priming;
pub mod round;
pub mod startup;
pub mod reconfigure;
pub mod saving;
pub mod settled;
pub mod analysis;
pub mod copies;
pub mod rooting;
pub mod macro_users;
pub mod on_disk;
pub mod cone;
pub mod visibility;
pub mod turns;
