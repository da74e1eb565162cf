//! Detects duplicate and conflicting class entries across the archives of a
//! classpath.
//!
//! The [`collector`] goes through the entries of each archive, keeps those
//! that count and records them in the [`index`]; the [`report`] module picks
//! the names that are conflicts under the run's [`policy`]. The [`archive`]
//! module reads archive directories with the `zip` crate, [`label`] derives
//! archive labels, [`config`] holds the run's configuration, [`text`] the
//! string primitives, and [`laws`] what is proved of every run.

pub mod archive;
pub mod collector;
pub mod config;
pub mod index;
pub mod label;
pub mod laws;
pub mod policy;
pub mod report;
pub mod text;
