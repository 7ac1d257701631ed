//! The settings of one run, and what must hold before it starts.

use crate::ieee;
use std::path::PathBuf;
use vstd::prelude::*;

verus! {

/// The settings of one run.
#[derive(Debug)]
pub struct ProgramArgs {
    /// The directory that holds the images.
    pub input: PathBuf,
    /// The directory that the clusters are written to.
    pub output: PathBuf,
    /// The radius used to generate clusters: metres, as a binary64 bit
    /// pattern.
    pub threshold: u64,
    /// Whether images without a position are moved into clusters by time.
    pub relocate: bool,
    /// The time window of relocation, in seconds.
    pub time: Option<u64>,
    /// Whether clusters are named by a geocoding service.
    pub human_readable: bool,
    /// The key to the geocoding service.
    pub api_key: Option<String>,
    /// Whether the run reports what it does.
    pub verbose: bool,
}

/// What is wrong with a run's settings.
#[derive(Clone, Copy, Debug, PartialEq, Eq, Structural)]
pub enum UsageError {
    /// The threshold is not a number above zero.
    Threshold,
    /// Relocation is asked for without a time window.
    MissingTime,
    /// Names are asked for without a key to the geocoding service.
    MissingApiKey,
}

/// Why a run cannot start.
#[derive(Clone, Copy, Debug, PartialEq, Eq, Structural)]
pub enum FatalPrecondition {
    /// The input path is no directory.
    InputNotDirectory,
    /// The output directory holds something already.
    OutputNotEmpty,
    /// The output path does not exist or is no directory.
    OutputMissing,
}

impl ProgramArgs {
    /// The first thing wrong with the settings, if anything is: the threshold
    /// must be above zero, relocation needs a time window, and names need a
    /// key.
    pub open spec fn fault(&self) -> Option<UsageError> {
        if !ieee::spec_is_positive(self.threshold) {
            Some(UsageError::Threshold)
        } else if self.relocate && self.time is None {
            Some(UsageError::MissingTime)
        } else if self.human_readable && self.api_key is None {
            Some(UsageError::MissingApiKey)
        } else {
            None
        }
    }

    /// Checks the settings.
    pub fn check(&self) -> (checked: Result<(), UsageError>)
        ensures
            checked == match self.fault() {
                Some(why) => Err::<(), UsageError>(why),
                None => Ok(()),
            },
    {
        if !ieee::is_positive(self.threshold) {
            Err(UsageError::Threshold)
        } else if self.relocate && self.time.is_none() {
            Err(UsageError::MissingTime)
        } else if self.human_readable && self.api_key.is_none() {
            Err(UsageError::MissingApiKey)
        } else {
            Ok(())
        }
    }
}

/// Why a run cannot start, if it cannot, given what was found at the two
/// paths: whether the input path is a directory, and how many entries the
/// output directory holds (`None` where it could not be listed).
pub open spec fn obstacle(input_is_directory: bool, output_entries: Option<usize>) -> Option<
    FatalPrecondition,
> {
    if !input_is_directory {
        Some(FatalPrecondition::InputNotDirectory)
    } else {
        match output_entries {
            Some(entries) => if entries > 0 {
                Some(FatalPrecondition::OutputNotEmpty)
            } else {
                None
            },
            None => Some(FatalPrecondition::OutputMissing),
        }
    }
}

/// Decides whether a run can start: the input must be a directory, and the
/// output an empty directory.
pub fn check_paths(input_is_directory: bool, output_entries: Option<usize>) -> (checked: Result<
    (),
    FatalPrecondition,
>)
    ensures
        checked == match obstacle(input_is_directory, output_entries) {
            Some(why) => Err::<(), FatalPrecondition>(why),
            None => Ok(()),
        },
{
    if !input_is_directory {
        return Err(FatalPrecondition::InputNotDirectory);
    }
    match output_entries {
        Some(entries) => if entries > 0 {
            Err(FatalPrecondition::OutputNotEmpty)
        } else {
            Ok(())
        },
        None => Err(FatalPrecondition::OutputMissing),
    }
}

} // verus!
