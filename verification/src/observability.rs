//! Descriptions of the metrics that the market-data service exports.

use vstd::prelude::*;

verus! {

/// Describes the counter `name` to the installed `metrics` recorder: the body of the
/// `describe_counter!` macro, `Recorder::describe_counter` called through
/// `metrics::with_recorder` with no unit. It only registers text with the recorder.
#[verifier::external_body]
fn describe_counter(name: &'static str, description: &'static str) {
    ::metrics::with_recorder(|recorder| {
        recorder.describe_counter(name.into(), None, description.into())
    });
}

/// Describes the counters of the market-data service.
pub fn describe_metrics() {
    describe_counter("market_data_depth_updates_total", "Count of depth updates from Binance");
}

} // verus!
