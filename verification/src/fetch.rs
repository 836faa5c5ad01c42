//! Remote sync through the system `git`: the hardened fetch command line and how its
//! outcome is reported.
//!
//! Only `fetch` is ever run (never merge or pull): it moves remote-tracking refs and
//! leaves the working tree, the local branch and HEAD alone.

use vstd::prelude::*;

use crate::text::{concat, first_line, line_before_newline, lossy_decode, owned, trim, trimmed, utf8_lossy, views};

verus! {

/// Result of a fetch attempt.
pub struct FetchOutcome {
    pub ok: bool,
    /// Empty on success; a short reason on failure.
    pub message: String,
}

/// The arguments of the hardened fetch: the `ext` and `fd` transports are disabled
/// before the subcommand, so a repository's configuration cannot use them to run code.
pub open spec fn hardened_fetch_args(path: Seq<char>) -> Seq<Seq<char>> {
    seq![
        "-c"@,
        "protocol.ext.allow=never"@,
        "-c"@,
        "protocol.fd.allow=never"@,
        "-C"@,
        path,
        "fetch"@,
        "--all"@,
        "--prune"@,
        "--quiet"@,
    ]
}

/// Arguments for `git` to fetch every remote of the repository at `path`, pruning
/// deleted remote branches, quietly, with the `ext`/`fd` transports disabled.
pub fn fetch_args(path: &str) -> (r: Vec<String>)
    ensures
        views(r@) == hardened_fetch_args(path@),
{
    let mut v: Vec<String> = Vec::new();
    v.push(owned("-c"));
    v.push(owned("protocol.ext.allow=never"));
    v.push(owned("-c"));
    v.push(owned("protocol.fd.allow=never"));
    v.push(owned("-C"));
    v.push(owned(path));
    v.push(owned("fetch"));
    v.push(owned("--all"));
    v.push(owned("--prune"));
    v.push(owned("--quiet"));
    assert(views(v@) =~= hardened_fetch_args(path@));
    v
}

/// The reason reported for a fetch that ran and failed: the first line of its error
/// output, trimmed, or a generic reason when that is empty.
pub open spec fn failure_message(stderr: Seq<u8>) -> Seq<char> {
    let m = trimmed(first_line(lossy_decode(stderr)));
    if m.len() == 0 {
        "git fetch failed"@
    } else {
        m
    }
}

/// The outcome of a `git fetch` that ran: success with no message, or failure with the
/// first line of its error output (trimmed) as the reason.
pub fn fetch_outcome(success: bool, stderr: &Vec<u8>) -> (r: FetchOutcome)
    ensures
        r.ok == success,
        success ==> r.message@.len() == 0,
        !success ==> r.message@ == failure_message(stderr@),
{
    if success {
        return FetchOutcome { ok: true, message: String::new() };
    }
    let text = utf8_lossy(stderr);
    let line = line_before_newline(text.as_str());
    let msg = trim(line.as_str());
    if msg.as_str().is_empty() {
        FetchOutcome { ok: false, message: owned("git fetch failed") }
    } else {
        FetchOutcome { ok: false, message: msg }
    }
}

/// The outcome when `git` could not be started at all; `reason` is the system error.
pub fn fetch_unavailable(reason: &str) -> (r: FetchOutcome)
    ensures
        !r.ok,
        r.message@ == "git not available: "@ + reason@,
{
    FetchOutcome { ok: false, message: concat("git not available: ", reason) }
}

/// Whether the background fetch runs, given the `auto_fetch` setting: every value but
/// `off` (including no setting at all) leaves it on.
pub fn auto_fetch_enabled(setting: &Option<String>) -> (r: bool)
    ensures
        r == !(setting matches Some(v) && v@ == "off"@),
{
    match setting {
        Some(v) => *v != owned("off"),
        None => true,
    }
}

} // verus!
