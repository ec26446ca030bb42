//! Core of an application launcher: frecency bookkeeping, fuzzy ranking of a
//! catalog of desktop applications, and a bounded cache of resolved icons.
//!
//! - [`desktop`]: catalog records, the command line of an application, and
//!   the choice of the applications that make up a catalog.
//! - [`history`]: launch counts and times, and the scores that follow.
//! - [`matcher`]: the ranked shortlist for a query.
//! - [`icons`]: the icon cache.
//! - [`state`]: the state of one launcher session.
//! - [`config`]: settings and their defaults.
//! - [`text`]: strings as sequences of characters.
//!
//! The crate does no input or output and no floating-point arithmetic.
//! Scores are fixed-point numbers; what has to be read from the machine or
//! computed in floating point is handed in by the caller.

pub mod config;
pub mod desktop;
pub mod history;
pub mod icons;
pub mod matcher;
pub mod state;
pub mod text;

pub use config::{AppearanceConfig, Config, LauncherConfig};
pub use desktop::{scan_applications, DesktopApp};
pub use history::{FrecencyEntry, FrecencyScores, History};
pub use icons::IconCache;
pub use matcher::{FuzzyMatcher, MatchResult};
pub use state::LauncherState;
