//! Settings of the launcher and the version names it accepts.

use vstd::prelude::*;

use crate::text::str_eq;

verus! {

/// The newest stable game version.
pub const LATEST_VERSION: &'static str = "0.5.2";

/// Where game files are downloaded from.
pub const URL_PREFIX: &'static str = "https://app-polytrack.kodub.com/";

/// How many times a download is attempted.
pub const MAX_DOWNLOAD_RETRIES: u32 = 5;

/// Seconds to wait between two attempts.
pub const RETRY_DELAY_SECS: u64 = 5;

/// The version a name stands for: `latest` is the newest stable version,
/// any other name is itself.
pub fn resolve_version(version: &str) -> (r: String)
    ensures
        version@ == "latest"@ ==> r@ == LATEST_VERSION@,
        version@ != "latest"@ ==> r@ == version@,
{
    if str_eq(version, "latest") {
        LATEST_VERSION.to_owned()
    } else {
        version.to_owned()
    }
}

} // verus!
