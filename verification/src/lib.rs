//! Decision logic of a media gallery: archive naming, archive inspection,
//! folder moves, identity merging, statistics gates and recognition plumbing.
//!
//! Every function here computes on plain values; reading files, running
//! processes and talking to the database happens in the application crate.

pub mod archive_format;
pub mod archive_laws;
pub mod archive_ops;
pub mod archive_profiles;
pub mod archive_runs;
pub mod archive_storage;
pub mod artist_folder_move;
pub mod artist_folders;
pub mod artist_merge;
pub mod artist_profile_links;
pub mod calendar;
pub mod character_ccip;
pub mod character_ranking;
pub mod date_laws;
pub mod db;
pub mod db_housekeeping;
pub mod db_identity;
pub mod decision_laws;
pub mod dimensions;
pub mod evidence_audit;
pub mod folder_archive;
pub mod format_laws;
pub mod fs_util;
pub mod gpu_access;
pub mod id_list;
pub mod identity_laws;
pub mod item_laws;
pub mod item_merge;
pub mod json;
pub mod library_tables;
pub mod listing_laws;
pub mod merge_laws;
pub mod names;
pub mod order;
pub mod path_conflicts;
pub mod paths;
pub mod plan_columns;
pub mod plan_laws;
pub mod plan_rows;
pub mod preview_answers;
pub mod run_laws;
pub mod tables;
pub mod text;
pub mod text_laws;
