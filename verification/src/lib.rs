//! Decisions and formats of a recycle bin for Linux.

pub mod agreement;
pub mod config;
pub mod config_laws;
pub mod contents;
pub mod contents_laws;
pub mod dates;
pub mod dates_laws;
pub mod directorysizes;
pub mod disk;
pub mod emptying;
pub mod errors;
pub mod filter;
pub mod glob;
pub mod glob_laws;
pub mod intercept;
pub mod intercept_laws;
pub mod job;
pub mod job_laws;
pub mod monitor;
pub mod monitor_laws;
pub mod mounts;
pub mod mounts_laws;
pub mod oplog;
pub mod oplog_laws;
pub mod path;
pub mod percent;
pub mod process;
pub mod report;
pub mod report_laws;
pub mod retention;
pub mod retention_laws;
pub mod rm;
pub mod rm_laws;
pub mod seqs;
pub mod sha256;
pub mod sorting;
pub mod store;
pub mod store_laws;
pub mod supervise;
pub mod supervise_laws;
pub mod text;
pub mod text_laws;
pub mod trashinfo;
pub mod trashinfo_laws;
pub mod update;
pub mod update_laws;
