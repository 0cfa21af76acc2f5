//! Audit resolution for a dependency graph: decides, from recorded audits,
//! exemptions and policy, whether every third-party package reaches the
//! criteria that its consumers demand, and says what to audit next.
//!
//! [`resolver::resolve`] is the entry point. It reads the packages of the
//! graph ([`graph`]) and the three files ([`format`]), builds the criteria
//! table ([`criteria`]) and the model ([`model`], [`prepare`]), works out
//! what each package achieves and what is required of it ([`settle`]), and
//! writes the report ([`report`]) with its suggestions ([`suggest`],
//! [`advice`]) and warnings ([`warn`]). What holds of resolution on every
//! input is proved in [`laws`], [`adding`], [`weakening`] and [`start`].
//! [`mock`] holds sample graphs and sample files to try resolution on.

pub mod adding;
pub mod advice;
pub mod check;
pub mod criteria;
pub mod format;
pub mod graph;
pub mod init;
pub mod laws;
pub mod mock;
pub mod model;
pub mod prepare;
pub mod reach;
pub mod report;
pub mod resolver;
pub mod settle;
pub mod start;
pub mod suggest;
pub mod text;
pub mod version;
pub mod warn;
pub mod weakening;
pub mod witness;

pub use format::{
    AuditEntry, AuditsFile, ConfigFile, CriteriaEntry, ImportsFile, StableMap,
    UnauditedDependency,
};
pub use init::init_files;
