//! Where the plugin keeps its state.
use crate::path::{join_path, joined_path};
use crate::text::copy;
use vstd::prelude::*;

verus! {

broadcast use vstd::string::group_string_axioms;

/// The directory for state: the host's, or one under the home directory, or
/// under the temporary directory where there is none.
pub fn state_dir(from_host: Option<&str>, home: Option<&str>) -> (r: String)
    ensures
        r@ == (match from_host {
            Some(dir) => dir@,
            None => join_path(
                match home {
                    Some(h) => h@,
                    None => "/tmp"@,
                },
                ".local/state/herdr-gitview"@,
            ),
        }),
{
    match from_host {
        Some(dir) => copy(dir),
        None => match home {
            Some(h) => joined_path(h, ".local/state/herdr-gitview"),
            None => joined_path("/tmp", ".local/state/herdr-gitview"),
        },
    }
}

} // verus!
