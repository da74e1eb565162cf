//! The configuration of a run, as the command line gives it, and the checks
//! that stand between it and the collector.

use crate::policy::{policy_named, DistinctFrom};
use crate::text::{split, split_spec};
use vstd::prelude::*;

verus! {

/// A configuration that the engine must not be run with.
#[derive(Clone, Copy, Debug, PartialEq, Eq, Structural)]
pub enum ConfigurationError {
    /// The classpath names fewer than two archives, this many: no conflict
    /// is possible.
    TooFewArchives(usize),
    /// The policy selector is none of the recognized values.
    UnknownPolicy,
}

/// The configuration of a run.
#[derive(Debug)]
pub struct Args {
    /// The archive paths, joined by semicolons.
    pub jar_list: String,
    /// The distinctness policy.
    pub check: DistinctFrom,
    /// The exclusion prefixes.
    pub exclude: Vec<String>,
}

/// The character that separates the archive paths of a classpath.
pub const JAR_SEPARATOR: char = ';';

impl Args {
    /// Makes a configuration from the values of the command line. A missing
    /// policy selector means `size`; a selector that is given must be one of
    /// the recognized values.
    pub fn new(jar_list: String, check: Option<&str>, exclude: Vec<String>) -> (made: Result<
        Args,
        ConfigurationError,
    >)
        ensures
            match check {
                None => made == Ok::<Args, ConfigurationError>(
                    Args { jar_list, check: DistinctFrom::Size, exclude },
                ),
                Some(selector) => match policy_named(selector@) {
                    Some(policy) => made == Ok::<Args, ConfigurationError>(
                        Args { jar_list, check: policy, exclude },
                    ),
                    None => made == Err::<Args, ConfigurationError>(
                        ConfigurationError::UnknownPolicy,
                    ),
                },
            },
    {
        let policy = match check {
            None => DistinctFrom::Size,
            Some(selector) => match DistinctFrom::from_name(selector) {
                Some(policy) => policy,
                None => {
                    return Err(ConfigurationError::UnknownPolicy);
                },
            },
        };
        Ok(Args { jar_list, check: policy, exclude })
    }

    /// The archive paths of the classpath, in their order. A classpath of
    /// fewer than two archives is refused: the collector is not to run on
    /// it.
    pub fn archive_paths(&self) -> (paths: Result<Vec<String>, ConfigurationError>)
        ensures
            match paths {
                Ok(list) => list.len() >= 2 && list.deep_view() == split_spec(
                    self.jar_list@,
                    JAR_SEPARATOR,
                ),
                Err(error) => {
                    &&& split_spec(self.jar_list@, JAR_SEPARATOR).len() < 2
                    &&& error == ConfigurationError::TooFewArchives(
                        split_spec(self.jar_list@, JAR_SEPARATOR).len() as usize,
                    )
                },
            },
    {
        let list = split(self.jar_list.as_str(), JAR_SEPARATOR);
        if list.len() < 2 {
            Err(ConfigurationError::TooFewArchives(list.len()))
        } else {
            Ok(list)
        }
    }
}

} // verus!
