//! The launchd job that keeps the daemon running: its label, where its
//! property list goes, and the property list itself.

use vstd::prelude::*;

use crate::config;
use crate::path::{join, join_of};

verus! {

/// The launchd label of the daemon.
pub const LABEL: &'static str = "com.temprix.daemon";

/// Part 1 of the property list around the filled-in values.
pub const PLIST_PART_1: &'static str = "<?xml version=\"1.0\" encoding=\"UTF-8\"?>\n<!DOCTYPE plist PUBLIC \"-//Apple//DTD PLIST 1.0//EN\" \"http://www.apple.com/DTDs/PropertyList-1.0.dtd\">\n<plist version=\"1.0\">\n<dict>\n  <key>Label</key>\n  <string>com.temprix.daemon</string>\n  <key>ProgramArguments</key>\n  <array>\n    <string>";
/// Part 2 of the property list around the filled-in values.
pub const PLIST_PART_2: &'static str = "</string>\n    <string>daemon</string>\n  </array>\n  <key>RunAtLoad</key>\n  <true/>\n  <key>KeepAlive</key>\n  <true/>\n  <key>StandardOutPath</key>\n  <string>";
/// Part 3 of the property list around the filled-in values.
pub const PLIST_PART_3: &'static str = "</string>\n  <key>StandardErrorPath</key>\n  <string>";
/// Part 4 of the property list around the filled-in values.
pub const PLIST_PART_4: &'static str = "</string>\n  <key>WorkingDirectory</key>\n  <string>";
/// Part 5 of the property list around the filled-in values.
pub const PLIST_PART_5: &'static str = "</string>\n</dict>\n</plist>";

/// `~/Library/LaunchAgents/com.temprix.daemon.plist`, given the home directory.
pub fn plist_path(home: &str) -> (r: String)
    ensures
        r@ == join_of(join_of(join_of(home@, "Library"@), "LaunchAgents"@), "com.temprix.daemon.plist"@),
{
    let lib = join(home, "Library");
    let agents = join(lib.as_str(), "LaunchAgents");
    join(agents.as_str(), "com.temprix.daemon.plist")
}

/// The property list text with the binary, log file and home directory filled in.
pub open spec fn plist_text(bin: Seq<char>, log: Seq<char>, home: Seq<char>) -> Seq<char> {
    PLIST_PART_1@ + bin + PLIST_PART_2@ + log + PLIST_PART_3@ + log + PLIST_PART_4@ + home + PLIST_PART_5@
}

/// The property list that runs `bin_path daemon` at login and keeps it
/// alive, logging to `log_path` and working in `home_path`.
pub fn generate_plist(bin_path: &str, log_path: &str, home_path: &str) -> (r: String)
    ensures
        r@ == plist_text(bin_path@, log_path@, home_path@),
{
    let mut s = String::from_str(PLIST_PART_1);
    s.append(bin_path);
    s.append(PLIST_PART_2);
    s.append(log_path);
    s.append(PLIST_PART_3);
    s.append(log_path);
    s.append(PLIST_PART_4);
    s.append(home_path);
    s.append(PLIST_PART_5);
    s
}

/// The daemon's log file.
pub fn log_path(home: &str) -> (r: String)
    ensures
        r@ == join_of(join_of(config::tool_dir_of(home@), "logs"@), "daemon.log"@),
{
    config::log_path(home)
}

/// Where the last `n` of `count` log lines begin: all of them when there
/// are no more than `n`.
pub fn tail_start(count: usize, n: usize) -> (r: usize)
    ensures
        r == if count > n {
            count - n
        } else {
            0
        },
        count - r == if count > n {
            n as int
        } else {
            count as int
        },
{
    count.saturating_sub(n)
}

} // verus!
