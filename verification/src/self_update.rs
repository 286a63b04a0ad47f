//! The `pygmy self update` command: what to do given the running and the
//! latest version.
use vstd::prelude::*;

use crate::version_check::{is_newer, newer_spec, semver_newer};

verus! {

/// Options of `pygmy self update`.
pub struct UpdateArgs {
    /// Only report whether an update is available.
    pub check: bool,
}

/// Subcommands of `pygmy self`.
pub enum SelfAction {
    /// Update pygmy to the latest release.
    Update(UpdateArgs),
}

/// The `pygmy self` command.
pub struct SelfCmd {
    pub action: SelfAction,
}

/// What `pygmy self update` does.
pub enum UpdatePlan {
    /// A development build does not update itself.
    DevBuild,
    /// The running version is the latest.
    AlreadyLatest,
    /// A newer version exists; only report it.
    ReportAvailable,
    /// A newer version exists; install it.
    Install,
}

/// Why no plan could be made.
pub enum UpdateError {
    LatestUnknown,
}

impl UpdateError {
    /// The message shown to the user.
    pub fn message(&self) -> (m: String)
        ensures
            m@ == "could not determine the latest version"@,
    {
        "could not determine the latest version".to_owned()
    }
}

/// The plan for `pygmy self update` (`check` for `--check`).
pub open spec fn update_plan_spec(is_dev: bool, check: bool, current: Seq<char>, latest: Option<Seq<char>>) -> Result<UpdatePlan, UpdateError> {
    if is_dev {
        Ok(UpdatePlan::DevBuild)
    } else {
        match latest {
            None => Err(UpdateError::LatestUnknown),
            Some(l) => if !newer_spec(current, l, semver_newer(current, l)) {
                Ok(UpdatePlan::AlreadyLatest)
            } else if check {
                Ok(UpdatePlan::ReportAvailable)
            } else {
                Ok(UpdatePlan::Install)
            },
        }
    }
}

/// Decides what `pygmy self update` does: nothing on a development build;
/// an error when the latest version is unknown; otherwise report or install
/// according to whether the latest version is newer.
pub fn plan_update(is_dev: bool, check: bool, current: &str, latest: Option<&str>) -> (r: Result<UpdatePlan, UpdateError>)
    ensures
        r == update_plan_spec(is_dev, check, current@, match latest {
            Some(l) => Some(l@),
            None => None,
        }),
{
    if is_dev {
        return Ok(UpdatePlan::DevBuild);
    }
    match latest {
        None => Err(UpdateError::LatestUnknown),
        Some(l) => {
            if !is_newer(current, l) {
                Ok(UpdatePlan::AlreadyLatest)
            } else if check {
                Ok(UpdatePlan::ReportAvailable)
            } else {
                Ok(UpdatePlan::Install)
            }
        },
    }
}

} // verus!
