//! Command-line surface: what `main` parsed, handed around as plain values so nothing
//! downstream re-scans argv with rules of its own.

use vstd::prelude::*;

verus! {

/// The Gosub Beacon browser's command line.
#[derive(Debug, Clone)]
pub struct Cli {
    /// URLs to open as startup tabs. Without any, the previous session is restored.
    pub urls: Vec<String>,
    /// Open a private window: ephemeral cookies and storage, nothing written to the
    /// session.
    pub private: bool,
    /// Profile directory to use instead of the platform default (cookies, history,
    /// settings, session). Useful for a scratch profile that leaves the real one alone.
    pub user_data_dir: Option<String>,
}

impl Default for Cli {
    /// No URLs, not private, the default profile: what a run without arguments parses to.
    fn default() -> (res: Cli)
        ensures
            res.urls@.len() == 0,
            !res.private,
            res.user_data_dir is None,
    {
        Cli { urls: Vec::new(), private: false, user_data_dir: None }
    }
}

} // verus!
