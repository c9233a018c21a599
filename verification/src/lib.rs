//! Telemetry compaction for satellite-network simulations.
//!
//! Two independent pipelines turn row-oriented telemetry into compact,
//! densely packed binary artifacts:
//!
//! * the route pipeline groups per-packet hop records into ordered routes,
//!   each carrying the accumulated physical path length, and
//! * the satellite pipeline turns sparse queue-depth samples into a complete
//!   time series with a fixed five-second sampling cadence.
//!
//! Both output entity sequences can be serialized to, and recovered exactly
//! from, a compact binary form; the encoding round-trips losslessly.

use vstd::prelude::*;

mod bits;
mod codec;
mod routes;
mod satstats;
mod types;

pub use bits::bits_exp;
pub use bits::bits_mantissa;
pub use bits::bits_shift;
pub use bits::bits_sig;
pub use bits::bits_sign;
pub use bits::ceil_of_bits;
pub use bits::floor_log2;
pub use bits::floor_of_bits;
pub use bits::round_of_bits;
pub use bits::single_bits_from_uint;
pub use bits::single_bits_of;
pub use bits::time_bits_ok;
pub use bits::timestamp_projections;
pub use bits::two_pow;
pub use codec::decode_routes;
pub use codec::decode_sat_stats;
pub use codec::encode_routes;
pub use codec::encode_sat_stats;
pub use codec::lemma_routes_round_trip;
pub use codec::lemma_sat_stats_round_trip;
pub use codec::spec_decode_routes;
pub use codec::spec_decode_sats;
pub use codec::spec_encode_routes;
pub use codec::spec_encode_sats;
pub use routes::build_routes;
pub use routes::group_spec;
pub use routes::lemma_routes_have_hops;
pub use routes::routes_view;
pub use routes::set_length;
pub use satstats::filter_sat;
pub use satstats::fold_step;
pub use satstats::grid_states;
pub use satstats::init_fold;
pub use satstats::lemma_interleaving_irrelevant;
pub use satstats::lemma_satellite_independence;
pub use satstats::lemma_series_starts_at_zero;
pub use satstats::sat_entries;
pub use satstats::sat_fold;
pub use satstats::sat_ids;
pub use satstats::seed_state;
pub use satstats::transform_satstats;
pub use satstats::FoldState;
pub use types::sats_view;
pub use types::DecodeError;
pub use types::Hop;
pub use types::HopRecord;
pub use types::Route;
pub use types::RouteV;
pub use types::SatRecord;
pub use types::SatV;
pub use types::Satellite;
pub use types::State;

verus! {

/// The fixed sampling cadence, in seconds, at which synthetic states are
/// inserted between sparse queue-depth observations.
pub const CADENCE: u32 = 5;

} // verus!
