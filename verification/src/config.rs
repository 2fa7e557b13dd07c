//! The policy configuration.
use crate::whitelist::UrlPattern;
use vstd::prelude::*;

verus! {

/// A span of time on the extension's clock, in milliseconds.
pub type Millis = u64;

#[derive(Clone, Copy, Debug, PartialEq, Eq, Structural)]
pub enum KillTabStrategy {
    /// Terminate tabs when the resident memory of all tabs exceeds a limit,
    /// largest first.
    RssLimit,
    /// Terminate tabs that have been in the background for too long; never a
    /// "New Tab" page.
    BackgroundTimeLimit,
    /// Terminate tabs that have not used the CPU for too long.
    CpuIdleTimeLimit,
}

#[derive(Clone, Copy, Debug)]
pub struct RssLimit {
    /// The resident memory that all tabs together may use, in bytes.
    pub max_bytes: u64,
}

#[derive(Clone, Copy, Debug)]
pub struct BackgroundTimeLimit {
    /// How long a tab may stay in the background.
    pub max_millis: Millis,
}

#[derive(Clone, Copy, Debug)]
pub struct CpuIdleTimeLimit {
    /// How long a tab may go without using the CPU.
    pub max_millis: Millis,
}

/// The limits of the three strategies.
#[derive(Clone, Copy, Debug)]
pub struct Strategy {
    pub rss_limit: RssLimit,
    pub background_time_limit: BackgroundTimeLimit,
    pub cpu_idle_time_limit: CpuIdleTimeLimit,
}

#[derive(Debug)]
pub struct Config {
    /// Name of the browser's executable.
    pub browser_name: String,
    /// The strategies to apply at each check, in this order.
    pub kill_tab_strategies: Vec<KillTabStrategy>,
    /// The time from one check to the next.
    pub check_interval: Millis,
    /// Whether a tab that plays sound is spared.
    pub whitelist_audible: bool,
    /// A tab whose URL matches one of these is spared by the memory limit.
    pub whitelist: Vec<UrlPattern>,
    pub strategy: Strategy,
}

} // verus!
