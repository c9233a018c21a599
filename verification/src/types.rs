//! The entity types shared by the two pipelines, their mathematical views,
//! and the error type of the binary decoder.
//!
//! Fractional quantities (latitude, longitude, timestamps) are carried as the
//! bit patterns of their IEEE 754 single-precision representation, held in
//! `u32` fields named `*_bits`.  The verified core never performs arithmetic
//! on those patterns — it only moves them around and, for synthetic
//! time-series samples, synthesizes the pattern of a small non-negative
//! integer (see the `bits` module) — so every field value round-trips through
//! the binary codec exactly.

use vstd::prelude::*;

verus! {

/// One waypoint of a route: a ground station or a satellite with its
/// geodetic position.
///
/// `typ` is the ASCII tag of the node kind (for example `b'G'` for a ground
/// station, `b'S'` for a satellite).  `lat_bits` and `lon_bits` hold the
/// IEEE 754 single-precision bit patterns of the latitude and longitude in
/// signed degrees; `alt` is the altitude in kilometers.
#[derive(Clone, Copy, Debug, PartialEq, Eq, Structural)]
pub struct Hop {
    pub typ: u8,
    pub id: u32,
    pub lat_bits: u32,
    pub lon_bits: u32,
    pub alt: u16,
}

/// One complete path for a single logical packet, in hop order.
///
/// `length` is the total path length in kilometers, rounded to the nearest
/// integer: the sum over consecutive hop pairs of the straight-line chord
/// distance between their Earth-centered Cartesian positions.  That distance
/// is floating-point geometry and is computed by the caller, outside the
/// verified core; `build_routes` emits every route with `length == 0` and the
/// caller fills it in through `set_length`.
#[derive(Clone, Debug, PartialEq, Eq)]
pub struct Route {
    pub pid: u32,
    pub length: u64,
    pub hops: Vec<Hop>,
}

/// The mathematical view of a [`Route`]: the hop vector abstracted to a
/// sequence.
#[verifier::ext_equal]
pub struct RouteV {
    pub pid: u32,
    pub length: u64,
    pub hops: Seq<Hop>,
}

impl View for Route {
    type V = RouteV;

    open spec fn view(&self) -> RouteV {
        RouteV { pid: self.pid, length: self.length, hops: self.hops@ }
    }
}

/// One flat input row of the route pipeline: a [`Hop`] tagged with the
/// identifier `pid` of the packet whose route it belongs to.
#[derive(Clone, Copy, Debug, PartialEq, Eq, Structural)]
pub struct HopRecord {
    pub pid: u32,
    pub typ: u8,
    pub id: u32,
    pub lat_bits: u32,
    pub lon_bits: u32,
    pub alt: u16,
}

impl HopRecord {
    /// The hop carried by this record, with the route identifier stripped.
    pub open spec fn hop_spec(self) -> Hop {
        Hop {
            typ: self.typ,
            id: self.id,
            lat_bits: self.lat_bits,
            lon_bits: self.lon_bits,
            alt: self.alt,
        }
    }

    /// Extracts the hop carried by this record.
    pub fn hop(&self) -> (h: Hop)
        ensures
            h == self.hop_spec(),
    {
        Hop {
            typ: self.typ,
            id: self.id,
            lat_bits: self.lat_bits,
            lon_bits: self.lon_bits,
            alt: self.alt,
        }
    }
}

/// One sample of a satellite's reconstructed time series.
///
/// `start_bits` holds the IEEE 754 single-precision bit pattern of the start
/// time in seconds; `qs` is the absolute queue size at that time.
#[derive(Clone, Copy, Debug, PartialEq, Eq, Structural)]
pub struct State {
    pub start_bits: u32,
    pub qs: u32,
}

/// The reconstructed queue-depth time series of one satellite.
///
/// `entries` starts with a synthetic state at time 0 with queue size 0 and is
/// ordered by start time for monotone input.
#[derive(Clone, Debug, PartialEq, Eq)]
pub struct Satellite {
    pub sat_id: u32,
    pub entries: Vec<State>,
}

/// The mathematical view of a [`Satellite`]: the entry vector abstracted to a
/// sequence.
#[verifier::ext_equal]
pub struct SatV {
    pub sat_id: u32,
    pub entries: Seq<State>,
}

impl View for Satellite {
    type V = SatV;

    open spec fn view(&self) -> SatV {
        SatV { sat_id: self.sat_id, entries: self.entries@ }
    }
}

/// The views of a vector of satellites.
pub open spec fn sats_view(sats: Seq<Satellite>) -> Seq<SatV> {
    Seq::new(sats.len(), |k: int| sats[k]@)
}

/// One flat input row of the satellite pipeline.
///
/// `t_bits` holds the IEEE 754 single-precision bit pattern of the sample's
/// timestamp in seconds.  `t_round` and `t_ceil` are the integer projections
/// of that same timestamp — rounded half away from zero, and rounded up —
/// as `timestamp_projections` computes them from the bit pattern.  The
/// gap-filling logic works on these integer projections only, which keeps
/// its arithmetic exact: for an integer grid point `i` and a real timestamp
/// `t`, `i < t` holds exactly when `i < ceil(t)`.
#[derive(Clone, Copy, Debug, PartialEq, Eq, Structural)]
pub struct SatRecord {
    pub sat_id: u32,
    pub t_bits: u32,
    pub t_round: u32,
    pub t_ceil: u32,
    pub queue_size: u32,
}

/// The error returned when a binary artifact does not decode: the payload is
/// truncated, carries an element count that its length cannot hold, or has
/// trailing bytes after the encoded sequence.
#[derive(Clone, Copy, Debug, PartialEq, Eq, Structural)]
pub struct DecodeError {
    /// Byte offset at which decoding could not continue.
    pub offset: usize,
}

} // verus!
