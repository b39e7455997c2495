//! Gathering of Typst packages for offline and hermetic builds.
//!
//! Two operations are offered. [`gather_packages`] makes packages available in a
//! directory: it downloads `@preview` packages and what they import, and copies
//! `@local` packages. [`analyze`] tells which packages are imported, and changes
//! nothing. Neither touches the world itself: an operation says what is to be done
//! next, and takes what came of it.

pub mod analyze;
pub mod analyze_ends;
pub mod analyze_finds;
pub mod analyze_laws;
pub mod analyze_origins;
pub mod analyze_steps;
pub mod cache_laws;
pub mod config;
pub mod config_laws;
pub mod excludes;
pub mod gather;
pub mod gather_ends;
pub mod gather_laws;
pub mod gather_origins;
pub mod gather_runs;
pub mod gather_steps;
pub mod gather_turns;
pub mod import_laws;
pub mod imports;
pub mod manifest;
pub mod order;
pub mod package;
pub mod package_laws;
pub mod reply_laws;
pub mod report;
pub mod report_laws;
pub mod rootdir_laws;
pub mod scan_laws;
pub mod seqs;
pub mod syntax;
pub mod syntax_laws;
pub mod text;
pub mod view_laws;
pub mod world;
pub mod world_laws;

pub use analyze::{analyze, Analysis, AnalyzeReply, AnalyzeRequest, AnalyzeResult};
pub use config::{Config, PackageEntry, Place};
pub use excludes::{copy_action, CopyAction, EntryKind, ExcludeSet};
pub use gather::{
    gather_packages, Gather, GatherReply, GatherRequest, GatherResult, Outcome, Stats,
};
pub use imports::ImportInfo;
pub use manifest::Manifest;
pub use package::{PackageSpec, PackageVersion};
pub use report::{plan_gather, report, GatherPlan, Report};
pub use syntax::{collect_imports, find_imports, try_extract_spec, SourceFile};
pub use world::{Found, Listed};
