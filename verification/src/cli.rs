//! Plain data describing one invocation: input directory, output
//! destination and the selected analysis mode.

use vstd::prelude::*;

verus! {

pub const NANOS_PER_MILLI: u64 = 1_000_000;

/// One run's arguments: where the capture files live, where the tabular
/// output goes (standard output when absent), and the analysis mode.
#[derive(Debug)]
pub struct CliArgs {
    /// Path of a directory containing capture files.
    pub pcap_dir: String,
    /// Desired path for the output table; standard output when `None`.
    pub csv_path: Option<String>,
    /// Which of the two analysis modes to run.
    pub parse_mode: ParseMode,
}

/// The two mutually exclusive analysis modes.
#[derive(Debug)]
pub enum ParseMode {
    /// Count the unique five-tuples seen across the capture files.
    FiveTuples,
    /// Aggregate flowlets per address pair; the field is the window
    /// (flowlet timeout) in milliseconds.
    Flowlets { window_ms: u64 },
}

/// Converts a flowlet window from milliseconds to the nanosecond timeout
/// the windowing algorithm uses; `None` when the product does not fit.
pub fn window_to_nanos(window_ms: u64) -> (r: Option<u64>)
    ensures
        r is Some <==> window_ms * NANOS_PER_MILLI <= u64::MAX,
        r is Some ==> r->Some_0 == window_ms * NANOS_PER_MILLI,
{
    window_ms.checked_mul(NANOS_PER_MILLI)
}

} // verus!
