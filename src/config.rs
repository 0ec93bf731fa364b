use vstd::prelude::*;

verus! {

/// Nanoseconds in a year of 365 days.
pub const YEAR_NANOS: u128 = 31_536_000_000_000_000;

/// The host's options that the build reads.
pub struct Config {
    /// Paths treated as very old; their own rules never run.
    pub old_file: Vec<String>,
    /// Paths treated as a year newer than now.
    pub new_file: Vec<String>,
    /// Rebuild everything, whatever the timestamps.
    pub always_make: bool,
    /// Echo recipe lines instead of running them.
    pub just_print: bool,
    /// Treat a nonzero exit status as success.
    pub ignore_errors: bool,
}

/// What the host found on looking a path up.
pub struct PathStat {
    /// The path's metadata could be read.
    pub readable: bool,
    /// Its modification time, in nanoseconds since the Unix epoch, if known.
    pub modified: Option<u128>,
    /// The time of the lookup, in nanoseconds since the Unix epoch.
    pub now: u128,
}

/// `path` is one of `paths`.
pub open spec fn listed(paths: Seq<String>, path: Seq<char>) -> bool {
    exists|i: int| 0 <= i < paths.len() && #[trigger] paths[i]@ == path
}

/// A year after `now`, or the largest time if that does not fit.
pub open spec fn year_after(now: u128) -> u128 {
    if now <= u128::MAX - YEAR_NANOS {
        (now + YEAR_NANOS) as u128
    } else {
        u128::MAX
    }
}

/// The resolved timestamp of `path`: absent when unreadable, the epoch for a
/// forced-old path, a year after now for a forced-new one, else its
/// modification time.
pub open spec fn resolved(path: Seq<char>, stat: PathStat, cfg: Config) -> Option<u128> {
    if !stat.readable {
        None
    } else if listed(cfg.old_file@, path) {
        Some(0)
    } else if listed(cfg.new_file@, path) {
        Some(year_after(stat.now))
    } else {
        stat.modified
    }
}

/// Tells whether `path` is one of `paths`.
pub fn contains_path(paths: &Vec<String>, path: &String) -> (r: bool)
    ensures
        r == listed(paths@, path@),
{
    let mut i: usize = 0;
    while i < paths.len()
        invariant
            i <= paths.len(),
            forall|j: int| 0 <= j < i ==> paths@[j]@ != path@,
        decreases paths.len() - i,
    {
        if paths[i] == *path {
            return true;
        }
        i = i + 1;
    }
    false
}

/// Resolves the timestamp of `path` from what the host found.
pub fn resolve_mtime(path: &String, stat: &PathStat, cfg: &Config) -> (r: Option<u128>)
    ensures
        r == resolved(path@, *stat, *cfg),
{
    if !stat.readable {
        None
    } else if contains_path(&cfg.old_file, path) {
        Some(0)
    } else if contains_path(&cfg.new_file, path) {
        if stat.now <= u128::MAX - YEAR_NANOS {
            Some(stat.now + YEAR_NANOS)
        } else {
            Some(u128::MAX)
        }
    } else {
        stat.modified
    }
}

} // verus!
