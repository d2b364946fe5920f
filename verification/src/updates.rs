//! The decision core of the periodic update check: how often to check,
//! whether a check is due, and whether a fetched version is news.

use vstd::prelude::*;

verus! {

use crate::text::str_eq;

/// Seconds in a day.
pub const DAY_SECS: u64 = 60 * 60 * 24;

/// Seconds in a week.
pub const WEEK_SECS: u64 = 60 * 60 * 24 * 7;

/// How often to check for updates.
#[derive(Copy, Clone, Debug, Eq, PartialEq, Structural)]
pub enum UpdateFrequency {
    /// Do not check for updates.
    Never,
    /// Check every day.
    Daily,
    /// Check every week.
    Weekly,
}

/// The frequency a configuration string selects.
pub open spec fn spec_update_frequency_from(s: Seq<char>) -> UpdateFrequency {
    if s == "daily"@ {
        UpdateFrequency::Daily
    } else if s == "weekly"@ {
        UpdateFrequency::Weekly
    } else {
        UpdateFrequency::Never
    }
}

impl Default for UpdateFrequency {
    /// Checks are off until the user opts in.
    fn default() -> (r: Self)
        ensures
            r == UpdateFrequency::Never,
    {
        UpdateFrequency::Never
    }
}

impl From<&str> for UpdateFrequency {
    fn from(value: &str) -> (r: Self) {
        if str_eq(value, "daily") {
            UpdateFrequency::Daily
        } else if str_eq(value, "weekly") {
            UpdateFrequency::Weekly
        } else {
            UpdateFrequency::Never
        }
    }
}

impl vstd::std_specs::convert::FromSpecImpl<&str> for UpdateFrequency {
    open spec fn obeys_from_spec() -> bool {
        true
    }

    open spec fn from_spec(value: &str) -> Self {
        spec_update_frequency_from(value@)
    }
}

impl UpdateFrequency {
    /// The check interval in seconds; `None` turns checking off.
    pub fn into_duration(self) -> (r: Option<u64>)
        ensures
            r == match self {
                UpdateFrequency::Never => None::<u64>,
                UpdateFrequency::Daily => Some(DAY_SECS),
                UpdateFrequency::Weekly => Some(WEEK_SECS),
            },
    {
        match self {
            UpdateFrequency::Never => None,
            UpdateFrequency::Daily => Some(DAY_SECS),
            UpdateFrequency::Weekly => Some(WEEK_SECS),
        }
    }

    /// The configuration string for this frequency.
    pub fn as_str(&self) -> (r: &str)
        ensures
            *self == spec_update_frequency_from(r@),
            r@ == "never"@ || r@ == "daily"@ || r@ == "weekly"@,
    {
        proof {
            reveal_strlit("never");
            reveal_strlit("daily");
            reveal_strlit("weekly");
            assert("never"@[0] == 'n' && "daily"@[0] == 'd' && "weekly"@[0] == 'w');
            assert('n' as u32 == 110 && 'd' as u32 == 100 && 'w' as u32 == 119);
            assert("never"@ != "daily"@ && "never"@ != "weekly"@ && "daily"@ != "weekly"@);
        }
        match self {
            UpdateFrequency::Never => "never",
            UpdateFrequency::Daily => "daily",
            UpdateFrequency::Weekly => "weekly",
        }
    }
}

/// Whether a check is due: the configured interval has fully elapsed
/// since the last check, and checking is on at all.
pub fn should_check(elapsed_secs: u64, freq: UpdateFrequency) -> (b: bool)
    ensures
        b == match freq {
            UpdateFrequency::Never => false,
            UpdateFrequency::Daily => elapsed_secs >= DAY_SECS,
            UpdateFrequency::Weekly => elapsed_secs >= WEEK_SECS,
        },
{
    match freq.into_duration() {
        None => false,
        Some(secs) => elapsed_secs >= secs,
    }
}

/// A release version, reduced to the numeric triple the update check
/// compares.
#[derive(Copy, Clone, Debug, Eq, PartialEq, Structural)]
pub struct Version3 {
    pub major: u64,
    pub minor: u64,
    pub patch: u64,
}

/// Numeric precedence of versions, component by component.
pub open spec fn spec_version_gt(a: Version3, b: Version3) -> bool {
    ||| a.major > b.major
    ||| (a.major == b.major && a.minor > b.minor)
    ||| (a.major == b.major && a.minor == b.minor && a.patch > b.patch)
}

/// Whether the last published version is news against the running one.
pub fn should_notify(last: &Version3, current: &Version3) -> (b: bool)
    ensures
        b == spec_version_gt(*last, *current),
{
    if last.major != current.major {
        last.major > current.major
    } else if last.minor != current.minor {
        last.minor > current.minor
    } else {
        last.patch > current.patch
    }
}

} // verus!
