//! Names of the stages that are reported to the user.

use vstd::prelude::*;

verus! {

pub const COPYING: &'static str = "copying";

pub const VERIFYING: &'static str = "verifying";

pub const RENAMING_SOURCE: &'static str = "renaming_source";

pub const SYNCING: &'static str = "syncing";

pub const CREATING_JUNCTION: &'static str = "creating_junction";

pub const RECORDING: &'static str = "recording";

pub const CLEANING: &'static str = "cleaning";

pub const REMOVING_JUNCTION: &'static str = "removing_junction";

pub const SWITCHING: &'static str = "switching";

} // verus!
