//! The command-line surface as plain data: the parsed invocation, and the
//! acknowledgement text of the sort placeholder.

use vstd::prelude::*;

verus! {

/// What the user asked for.
pub enum Commands {
    /// Scan a directory tree and print the aggregated report.
    Scan { directory: String, recursive: bool, ext_display_limit: u64 },
    /// Accepted but unimplemented: only acknowledges the request.
    Sort { directory: String, rules: String },
}

/// A parsed command line.
pub struct Cli {
    pub command: Commands,
}

/// The acknowledgement the sort placeholder prints instead of sorting.
pub fn sort_message(directory: &str, rules: &str) -> (r: String)
    ensures
        r@ == "Sorting directory "@ + directory@ + "\nWith rules from "@ + rules@,
{
    let mut r = String::from_str("Sorting directory ");
    r.append(directory);
    r.append("\nWith rules from ");
    r.append(rules);
    r
}

} // verus!
