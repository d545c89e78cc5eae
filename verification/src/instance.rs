//! The name under which one agent keeps out another.

use vstd::prelude::*;

verus! {

/// The mutex that a running agent holds, so that a second one in the same
/// bottle finds it taken.
pub const AGENT_MUTEX_NAME: &'static str = "Local\\DeimosWizard101Agent";

}
