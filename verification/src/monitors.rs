//! Monitor-list refresh.
//!
//! The GUI library wants one record per attached monitor: its geometry
//! twice over (full area and work area — this subsystem reports the full
//! area for both) and its scale factor.  The host queries the windowing
//! layer for the raw monitor list and hands it here as plain values; the
//! scale factor travels as thousandths so no fraction is lost to the
//! integer model.  At most 32 monitors are reported, matching the bound
//! the refresh has always enforced.

use vstd::prelude::*;

use crate::geom::{Pos, Size};

verus! {

/// The most monitors one refresh reports.
pub const MONITOR_LIMIT: usize = 32;

/// One monitor as the windowing layer reports it.
#[derive(Clone, Copy, Debug, PartialEq, Eq, Structural)]
pub struct MonitorInfo {
    /// Top-left corner, in physical pixels.
    pub pos: Pos,
    /// Extent, in physical pixels.
    pub size: Size,
    /// Scale factor in thousandths: 1000 is one-to-one.
    pub scale_millis: u32,
}

/// One monitor as the GUI library's platform record wants it.
#[derive(Clone, Copy, Debug, PartialEq, Eq, Structural)]
pub struct PlatformMonitor {
    pub main_pos: Pos,
    pub main_size: Size,
    pub work_pos: Pos,
    pub work_size: Size,
    /// Scale factor in thousandths: 1000 is one-to-one.
    pub scale_millis: u32,
}

/// The record for one monitor: work area equals full area.
pub open spec fn spec_platform_monitor(m: MonitorInfo) -> PlatformMonitor {
    PlatformMonitor {
        main_pos: m.pos,
        main_size: m.size,
        work_pos: m.pos,
        work_size: m.size,
        scale_millis: m.scale_millis,
    }
}

/// Build the platform monitor records: one per reported monitor in the
/// reported order, capped at [`MONITOR_LIMIT`].
pub fn monitor_entries(monitors: &Vec<MonitorInfo>) -> (r: Vec<PlatformMonitor>)
    ensures
        r@.len() == if monitors@.len() <= MONITOR_LIMIT {
            monitors@.len() as int
        } else {
            MONITOR_LIMIT as int
        },
        forall|i: int|
            0 <= i < r@.len() ==> #[trigger] r@[i] == spec_platform_monitor(monitors@[i]),
{
    let n: usize = if monitors.len() < MONITOR_LIMIT {
        monitors.len()
    } else {
        MONITOR_LIMIT
    };
    let mut r: Vec<PlatformMonitor> = Vec::new();
    let mut i: usize = 0;
    while i < n
        invariant
            i <= n,
            n <= monitors@.len(),
            r@.len() == i,
            forall|j: int|
                0 <= j < i ==> #[trigger] r@[j] == spec_platform_monitor(monitors@[j]),
        decreases n - i,
    {
        let m = monitors[i];
        r.push(
            PlatformMonitor {
                main_pos: m.pos,
                main_size: m.size,
                work_pos: m.pos,
                work_size: m.size,
                scale_millis: m.scale_millis,
            },
        );
        i = i + 1;
    }
    r
}

} // verus!
