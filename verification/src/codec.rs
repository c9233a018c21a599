//! The binary codec: a compact, lossless encoding of the two entity
//! sequences.
//!
//! The artifact layout is length-prefixed and little-endian throughout:
//!
//! * satellite artifact: `u32` satellite count, then per satellite its
//!   `u32` identifier, a `u32` entry count and the entries, each entry a
//!   `u32` start-time bit pattern followed by a `u32` queue size;
//! * route artifact: `u32` route count, then per route its `u32` packet
//!   identifier, a `u64` length, a `u32` hop count and the hops, each hop a
//!   node-kind byte, `u32` node identifier, `u32` latitude bit pattern,
//!   `u32` longitude bit pattern and `u16` altitude.
//!
//! Decoding is strict: a truncated payload, an impossible count, or trailing
//! bytes all fail.  Encoding and decoding are specified by pure functions
//! over byte sequences, and the round-trip lemmas state that decoding an
//! encoded sequence yields exactly the original entities.

use vstd::bytes::*;
use vstd::prelude::*;
use vstd::slice::slice_subrange;

use crate::routes::routes_view;
use crate::types::sats_view;
use crate::types::DecodeError;
use crate::types::Hop;
use crate::types::Route;
use crate::types::RouteV;
use crate::types::SatV;
use crate::types::Satellite;
use crate::types::State;

verus! {

// ---------------------------------------------------------------------------
// Primitive fields
// ---------------------------------------------------------------------------

/// A little-endian `u32` read at offset `i`, with the offset after it.
pub open spec fn spec_dec_u32(b: Seq<u8>, i: int) -> Option<(u32, int)> {
    if 0 <= i && i + 4 <= b.len() {
        Some((spec_u32_from_le_bytes(b.subrange(i, i + 4)), i + 4))
    } else {
        None
    }
}

/// A little-endian `u64` read at offset `i`, with the offset after it.
pub open spec fn spec_dec_u64(b: Seq<u8>, i: int) -> Option<(u64, int)> {
    if 0 <= i && i + 8 <= b.len() {
        Some((spec_u64_from_le_bytes(b.subrange(i, i + 8)), i + 8))
    } else {
        None
    }
}

/// A little-endian `u16` read at offset `i`, with the offset after it.
pub open spec fn spec_dec_u16(b: Seq<u8>, i: int) -> Option<(u16, int)> {
    if 0 <= i && i + 2 <= b.len() {
        Some((spec_u16_from_le_bytes(b.subrange(i, i + 2)), i + 2))
    } else {
        None
    }
}

/// A single byte read at offset `i`, with the offset after it.
pub open spec fn spec_dec_u8(b: Seq<u8>, i: int) -> Option<(u8, int)> {
    if 0 <= i && i + 1 <= b.len() {
        Some((b[i], i + 1))
    } else {
        None
    }
}

fn enc_u32(out: &mut Vec<u8>, x: u32)
    ensures
        final(out)@ == old(out)@ + spec_u32_to_le_bytes(x),
{
    let mut t = u32_to_le_bytes(x);
    out.append(&mut t);
}

fn enc_u64(out: &mut Vec<u8>, x: u64)
    ensures
        final(out)@ == old(out)@ + spec_u64_to_le_bytes(x),
{
    let mut t = u64_to_le_bytes(x);
    out.append(&mut t);
}

fn enc_u16(out: &mut Vec<u8>, x: u16)
    ensures
        final(out)@ == old(out)@ + spec_u16_to_le_bytes(x),
{
    let mut t = u16_to_le_bytes(x);
    out.append(&mut t);
}

fn enc_u8(out: &mut Vec<u8>, x: u8)
    ensures
        final(out)@ == old(out)@ + seq![x],
{
    out.push(x);
    proof {
        assert(out@ =~= old(out)@ + seq![x]);
    }
}

fn dec_u32(b: &Vec<u8>, i: usize) -> (r: Result<(u32, usize), DecodeError>)
    requires
        i <= b@.len(),
    ensures
        match r {
            Ok(p) => spec_dec_u32(b@, i as int) == Some((p.0, p.1 as int)) && p.1 <= b@.len(),
            Err(_) => spec_dec_u32(b@, i as int) is None,
        },
{
    if b.len() - i < 4 {
        return Err(DecodeError { offset: i });
    }
    let s = slice_subrange(b.as_slice(), i, i + 4);
    Ok((u32_from_le_bytes(s), i + 4))
}

fn dec_u64(b: &Vec<u8>, i: usize) -> (r: Result<(u64, usize), DecodeError>)
    requires
        i <= b@.len(),
    ensures
        match r {
            Ok(p) => spec_dec_u64(b@, i as int) == Some((p.0, p.1 as int)) && p.1 <= b@.len(),
            Err(_) => spec_dec_u64(b@, i as int) is None,
        },
{
    if b.len() - i < 8 {
        return Err(DecodeError { offset: i });
    }
    let s = slice_subrange(b.as_slice(), i, i + 8);
    Ok((u64_from_le_bytes(s), i + 8))
}

fn dec_u16(b: &Vec<u8>, i: usize) -> (r: Result<(u16, usize), DecodeError>)
    requires
        i <= b@.len(),
    ensures
        match r {
            Ok(p) => spec_dec_u16(b@, i as int) == Some((p.0, p.1 as int)) && p.1 <= b@.len(),
            Err(_) => spec_dec_u16(b@, i as int) is None,
        },
{
    if b.len() - i < 2 {
        return Err(DecodeError { offset: i });
    }
    let s = slice_subrange(b.as_slice(), i, i + 2);
    Ok((u16_from_le_bytes(s), i + 2))
}

fn dec_u8(b: &Vec<u8>, i: usize) -> (r: Result<(u8, usize), DecodeError>)
    requires
        i <= b@.len(),
    ensures
        match r {
            Ok(p) => spec_dec_u8(b@, i as int) == Some((p.0, p.1 as int)) && p.1 <= b@.len(),
            Err(_) => spec_dec_u8(b@, i as int) is None,
        },
{
    if b.len() - i < 1 {
        return Err(DecodeError { offset: i });
    }
    Ok((b[i], i + 1))
}

proof fn lemma_dec_enc_u32(b: Seq<u8>, i: int, x: u32)
    requires
        0 <= i,
        i + 4 <= b.len(),
        b.subrange(i, i + 4) == spec_u32_to_le_bytes(x),
    ensures
        spec_dec_u32(b, i) == Some((x, i + 4)),
{
    lemma_auto_spec_u32_to_from_le_bytes();
    assert(spec_u32_to_le_bytes(x).len() == 4);
}

proof fn lemma_dec_enc_u64(b: Seq<u8>, i: int, x: u64)
    requires
        0 <= i,
        i + 8 <= b.len(),
        b.subrange(i, i + 8) == spec_u64_to_le_bytes(x),
    ensures
        spec_dec_u64(b, i) == Some((x, i + 8)),
{
    lemma_auto_spec_u64_to_from_le_bytes();
    assert(spec_u64_to_le_bytes(x).len() == 8);
}

proof fn lemma_dec_enc_u16(b: Seq<u8>, i: int, x: u16)
    requires
        0 <= i,
        i + 2 <= b.len(),
        b.subrange(i, i + 2) == spec_u16_to_le_bytes(x),
    ensures
        spec_dec_u16(b, i) == Some((x, i + 2)),
{
    lemma_auto_spec_u16_to_from_le_bytes();
    assert(spec_u16_to_le_bytes(x).len() == 2);
}

/// Splits a subrange known to hold a concatenation into its two halves.
proof fn lemma_subrange_concat(b: Seq<u8>, i: int, x: Seq<u8>, y: Seq<u8>)
    requires
        0 <= i,
        i + x.len() + y.len() <= b.len(),
        b.subrange(i, i + x.len() + y.len()) == x + y,
    ensures
        b.subrange(i, i + x.len()) == x,
        b.subrange(i + x.len(), i + x.len() + y.len()) == y,
{
    assert forall|k: int| 0 <= k < x.len() implies b.subrange(i, i + x.len() as int)[k] == x[k] by {
        assert(b.subrange(i, i + x.len() + y.len() as int)[k] == (x + y)[k]);
    }
    assert(b.subrange(i, i + x.len() as int) =~= x);
    assert forall|k: int|
        0 <= k < y.len() implies b.subrange(
        i + x.len(),
        i + x.len() + y.len() as int,
    )[k] == y[k] by {
        assert(b.subrange(i + x.len(), i + x.len() + y.len() as int)[k] == b[i + x.len() + k]);
        assert(b.subrange(i, i + x.len() + y.len() as int)[x.len() + k] == b[i + x.len() + k]);
        assert((x + y)[x.len() + k] == y[k]);
    }
    assert(b.subrange(i + x.len(), i + x.len() + y.len() as int) =~= y);
}

// ---------------------------------------------------------------------------
// States and satellites
// ---------------------------------------------------------------------------

/// The 8-byte encoding of one time-series state.
pub open spec fn spec_enc_state(s: State) -> Seq<u8> {
    spec_u32_to_le_bytes(s.start_bits) + spec_u32_to_le_bytes(s.qs)
}

/// Decodes one time-series state at offset `i`.
pub open spec fn spec_dec_state(b: Seq<u8>, i: int) -> Option<(State, int)> {
    match spec_dec_u32(b, i) {
        Some(p1) => match spec_dec_u32(b, p1.1) {
            Some(p2) => Some((State { start_bits: p1.0, qs: p2.0 }, p2.1)),
            None => None,
        },
        None => None,
    }
}

/// The concatenated encodings of a state sequence.
pub open spec fn spec_enc_states(ss: Seq<State>) -> Seq<u8>
    decreases ss.len(),
{
    if ss.len() == 0 {
        Seq::empty()
    } else {
        spec_enc_state(ss[0]) + spec_enc_states(ss.skip(1))
    }
}

/// Decodes exactly `n` consecutive states starting at offset `i`.
pub open spec fn spec_dec_states(b: Seq<u8>, i: int, n: nat) -> Option<(Seq<State>, int)>
    decreases n,
{
    if n == 0 {
        Some((Seq::empty(), i))
    } else {
        match spec_dec_state(b, i) {
            Some(p) => match spec_dec_states(b, p.1, (n - 1) as nat) {
                Some(q) => Some((seq![p.0] + q.0, q.1)),
                None => None,
            },
            None => None,
        }
    }
}

proof fn lemma_enc_state_len(s: State)
    ensures
        spec_enc_state(s).len() == 8,
{
    lemma_auto_spec_u32_to_from_le_bytes();
}

proof fn lemma_enc_states_len(ss: Seq<State>)
    ensures
        spec_enc_states(ss).len() == 8 * ss.len(),
    decreases ss.len(),
{
    if ss.len() > 0 {
        lemma_enc_state_len(ss[0]);
        lemma_enc_states_len(ss.skip(1));
    }
}

proof fn lemma_enc_states_snoc(ss: Seq<State>, x: State)
    ensures
        spec_enc_states(ss.push(x)) == spec_enc_states(ss) + spec_enc_state(x),
    decreases ss.len(),
{
    if ss.len() == 0 {
        assert(ss.push(x)[0] == x);
        assert(ss.push(x).skip(1) =~= Seq::<State>::empty());
        assert(spec_enc_states(Seq::<State>::empty()) == Seq::<u8>::empty());
        assert(spec_enc_states(ss.push(x)) =~= spec_enc_states(ss) + spec_enc_state(x));
    } else {
        assert(ss.push(x).skip(1) =~= ss.skip(1).push(x));
        lemma_enc_states_snoc(ss.skip(1), x);
        assert(spec_enc_states(ss.push(x)) =~= spec_enc_states(ss) + spec_enc_state(x));
    }
}

proof fn lemma_dec_enc_state(b: Seq<u8>, i: int, s: State)
    requires
        0 <= i,
        i + 8 <= b.len(),
        b.subrange(i, i + 8) == spec_enc_state(s),
    ensures
        spec_dec_state(b, i) == Some((s, i + 8)),
{
    lemma_auto_spec_u32_to_from_le_bytes();
    let a = spec_u32_to_le_bytes(s.start_bits);
    let c = spec_u32_to_le_bytes(s.qs);
    assert(a.len() == 4 && c.len() == 4);
    lemma_subrange_concat(b, i, a, c);
    lemma_dec_enc_u32(b, i, s.start_bits);
    lemma_dec_enc_u32(b, i + 4, s.qs);
}

proof fn lemma_dec_enc_states(b: Seq<u8>, i: int, ss: Seq<State>)
    requires
        0 <= i,
        i + 8 * ss.len() <= b.len(),
        b.subrange(i, i + 8 * ss.len()) == spec_enc_states(ss),
    ensures
        spec_dec_states(b, i, ss.len()) == Some((ss, i + 8 * ss.len())),
    decreases ss.len(),
{
    if ss.len() == 0 {
        assert(spec_dec_states(b, i, 0) == Some((Seq::<State>::empty(), i)));
        assert(ss =~= Seq::<State>::empty());
    } else {
        let s0 = ss[0];
        let rest = ss.skip(1);
        lemma_enc_state_len(s0);
        lemma_enc_states_len(rest);
        lemma_subrange_concat(b, i, spec_enc_state(s0), spec_enc_states(rest));
        lemma_dec_enc_state(b, i, s0);
        lemma_dec_enc_states(b, i + 8, rest);
        assert(seq![s0] + rest =~= ss);
    }
}

/// The encoding of one satellite: identifier, entry count, entries.
pub open spec fn spec_enc_sat(v: SatV) -> Seq<u8> {
    spec_u32_to_le_bytes(v.sat_id) + spec_u32_to_le_bytes(v.entries.len() as u32)
        + spec_enc_states(v.entries)
}

/// Decodes one satellite at offset `i`.
pub open spec fn spec_dec_sat(b: Seq<u8>, i: int) -> Option<(SatV, int)> {
    match spec_dec_u32(b, i) {
        Some(p1) => match spec_dec_u32(b, p1.1) {
            Some(p2) => match spec_dec_states(b, p2.1, p2.0 as nat) {
                Some(q) => Some((SatV { sat_id: p1.0, entries: q.0 }, q.1)),
                None => None,
            },
            None => None,
        },
        None => None,
    }
}

/// The concatenated encodings of a satellite sequence.
pub open spec fn spec_enc_sats(vs: Seq<SatV>) -> Seq<u8>
    decreases vs.len(),
{
    if vs.len() == 0 {
        Seq::empty()
    } else {
        spec_enc_sat(vs[0]) + spec_enc_sats(vs.skip(1))
    }
}

/// Decodes exactly `n` consecutive satellites starting at offset `i`.
pub open spec fn spec_dec_sats(b: Seq<u8>, i: int, n: nat) -> Option<(Seq<SatV>, int)>
    decreases n,
{
    if n == 0 {
        Some((Seq::empty(), i))
    } else {
        match spec_dec_sat(b, i) {
            Some(p) => match spec_dec_sats(b, p.1, (n - 1) as nat) {
                Some(q) => Some((seq![p.0] + q.0, q.1)),
                None => None,
            },
            None => None,
        }
    }
}

/// The whole satellite artifact: count, then the satellites.
pub open spec fn spec_encode_sats(vs: Seq<SatV>) -> Seq<u8> {
    spec_u32_to_le_bytes(vs.len() as u32) + spec_enc_sats(vs)
}

/// Decodes a whole satellite artifact; `None` on truncation, an impossible
/// count, or trailing bytes.
pub open spec fn spec_decode_sats(b: Seq<u8>) -> Option<Seq<SatV>> {
    match spec_dec_u32(b, 0) {
        Some(p) => match spec_dec_sats(b, p.1, p.0 as nat) {
            Some(q) => if q.1 == b.len() {
                Some(q.0)
            } else {
                None
            },
            None => None,
        },
        None => None,
    }
}

proof fn lemma_enc_sats_snoc(vs: Seq<SatV>, x: SatV)
    ensures
        spec_enc_sats(vs.push(x)) == spec_enc_sats(vs) + spec_enc_sat(x),
    decreases vs.len(),
{
    if vs.len() == 0 {
        assert(vs.push(x)[0] == x);
        assert(vs.push(x).skip(1) =~= Seq::<SatV>::empty());
        assert(spec_enc_sats(Seq::<SatV>::empty()) == Seq::<u8>::empty());
        assert(spec_enc_sats(vs.push(x)) =~= spec_enc_sats(vs) + spec_enc_sat(x));
    } else {
        assert(vs.push(x).skip(1) =~= vs.skip(1).push(x));
        lemma_enc_sats_snoc(vs.skip(1), x);
        assert(spec_enc_sats(vs.push(x)) =~= spec_enc_sats(vs) + spec_enc_sat(x));
    }
}

proof fn lemma_dec_enc_sat(b: Seq<u8>, i: int, v: SatV)
    requires
        0 <= i,
        v.entries.len() <= 0xffffffff,
        i + spec_enc_sat(v).len() <= b.len(),
        b.subrange(i, i + spec_enc_sat(v).len()) == spec_enc_sat(v),
    ensures
        spec_dec_sat(b, i) == Some((v, i + spec_enc_sat(v).len())),
{
    lemma_auto_spec_u32_to_from_le_bytes();
    lemma_enc_states_len(v.entries);
    let n = v.entries.len();
    let a = spec_u32_to_le_bytes(v.sat_id);
    let c = spec_u32_to_le_bytes(n as u32);
    let e = spec_enc_states(v.entries);
    assert(a.len() == 4 && c.len() == 4);
    assert(spec_enc_sat(v).len() == 8 + 8 * n);
    lemma_subrange_concat(b, i, a + c, e);
    lemma_subrange_concat(b, i, a, c);
    lemma_dec_enc_u32(b, i, v.sat_id);
    lemma_dec_enc_u32(b, i + 4, n as u32);
    assert((n as u32) as nat == n);
    lemma_dec_enc_states(b, i + 8, v.entries);
}

proof fn lemma_dec_enc_sats(b: Seq<u8>, i: int, vs: Seq<SatV>)
    requires
        0 <= i,
        forall|k: int| 0 <= k < vs.len() ==> (#[trigger] vs[k]).entries.len() <= 0xffffffff,
        i + spec_enc_sats(vs).len() <= b.len(),
        b.subrange(i, i + spec_enc_sats(vs).len()) == spec_enc_sats(vs),
    ensures
        spec_dec_sats(b, i, vs.len()) == Some((vs, i + spec_enc_sats(vs).len())),
    decreases vs.len(),
{
    if vs.len() == 0 {
        assert(vs =~= Seq::<SatV>::empty());
    } else {
        let v0 = vs[0];
        let rest = vs.skip(1);
        let e0 = spec_enc_sat(v0);
        let erest = spec_enc_sats(rest);
        assert(spec_enc_sats(vs) == e0 + erest);
        lemma_subrange_concat(b, i, e0, erest);
        lemma_dec_enc_sat(b, i, v0);
        lemma_dec_enc_sats(b, i + e0.len() as int, rest);
        assert(seq![v0] + rest =~= vs);
    }
}

/// LAW — lossless round trip of the satellite artifact: decoding an encoded
/// satellite sequence yields exactly that sequence.  The count fields force
/// the sequence and each entry list to fit a `u32`.
pub proof fn lemma_sat_stats_round_trip(vs: Seq<SatV>)
    requires
        vs.len() <= 0xffffffff,
        forall|k: int| 0 <= k < vs.len() ==> (#[trigger] vs[k]).entries.len() <= 0xffffffff,
    ensures
        spec_decode_sats(spec_encode_sats(vs)) == Some(vs),
{
    lemma_auto_spec_u32_to_from_le_bytes();
    let b = spec_encode_sats(vs);
    let a = spec_u32_to_le_bytes(vs.len() as u32);
    assert(a.len() == 4);
    assert(b.subrange(0, b.len() as int) =~= b);
    lemma_subrange_concat(b, 0, a, spec_enc_sats(vs));
    lemma_dec_enc_u32(b, 0, vs.len() as u32);
    assert((vs.len() as u32) as nat == vs.len());
    lemma_dec_enc_sats(b, 4, vs);
}

fn enc_state(out: &mut Vec<u8>, s: &State)
    ensures
        final(out)@ == old(out)@ + spec_enc_state(*s),
{
    enc_u32(out, s.start_bits);
    enc_u32(out, s.qs);
    proof {
        assert(out@ =~= old(out)@ + spec_enc_state(*s));
    }
}

fn enc_sat(out: &mut Vec<u8>, sat: &Satellite)
    requires
        sat.entries@.len() <= 0xffffffff,
    ensures
        final(out)@ == old(out)@ + spec_enc_sat(sat@),
{
    enc_u32(out, sat.sat_id);
    enc_u32(out, sat.entries.len() as u32);
    let ghost head = old(out)@ + spec_u32_to_le_bytes(sat.sat_id) + spec_u32_to_le_bytes(
        sat.entries@.len() as u32,
    );
    let mut k: usize = 0;
    proof {
        assert(sat.entries@.take(0) =~= Seq::<State>::empty());
        assert(out@ =~= head + spec_enc_states(sat.entries@.take(0)));
    }
    while k < sat.entries.len()
        invariant
            k <= sat.entries@.len(),
            out@ == head + spec_enc_states(sat.entries@.take(k as int)),
        decreases sat.entries@.len() - k,
    {
        enc_state(out, &sat.entries[k]);
        proof {
            assert(sat.entries@.take(k as int + 1) =~= sat.entries@.take(k as int).push(
                sat.entries@[k as int],
            ));
            lemma_enc_states_snoc(sat.entries@.take(k as int), sat.entries@[k as int]);
            assert(out@ =~= head + spec_enc_states(sat.entries@.take(k as int + 1)));
        }
        k = k + 1;
    }
    proof {
        assert(sat.entries@.take(sat.entries@.len() as int) =~= sat.entries@);
        assert(out@ =~= old(out)@ + spec_enc_sat(sat@));
    }
}

/// Serializes a satellite sequence to the compact binary artifact.
///
/// The count fields of the format force the sequence and each entry list to
/// fit a `u32`.
pub fn encode_sat_stats(sats: &Vec<Satellite>) -> (out: Vec<u8>)
    requires
        sats@.len() <= 0xffffffff,
        forall|k: int| 0 <= k < sats@.len() ==> (#[trigger] sats@[k]).entries@.len() <= 0xffffffff,
    ensures
        out@ == spec_encode_sats(sats_view(sats@)),
{
    let mut out: Vec<u8> = Vec::new();
    enc_u32(&mut out, sats.len() as u32);
    let ghost head = spec_u32_to_le_bytes(sats_view(sats@).len() as u32);
    let mut k: usize = 0;
    proof {
        assert(sats_view(sats@).take(0) =~= Seq::<SatV>::empty());
        assert(out@ =~= head + spec_enc_sats(sats_view(sats@).take(0)));
    }
    while k < sats.len()
        invariant
            k <= sats@.len(),
            sats@.len() <= 0xffffffff,
            forall|j: int|
                0 <= j < sats@.len() ==> (#[trigger] sats@[j]).entries@.len() <= 0xffffffff,
            out@ == head + spec_enc_sats(sats_view(sats@).take(k as int)),
        decreases sats@.len() - k,
    {
        enc_sat(&mut out, &sats[k]);
        proof {
            assert(sats_view(sats@).take(k as int + 1) =~= sats_view(sats@).take(k as int).push(
                sats@[k as int]@,
            ));
            lemma_enc_sats_snoc(sats_view(sats@).take(k as int), sats@[k as int]@);
            assert(out@ =~= head + spec_enc_sats(sats_view(sats@).take(k as int + 1)));
        }
        k = k + 1;
    }
    proof {
        assert(sats_view(sats@).take(sats_view(sats@).len() as int) =~= sats_view(sats@));
        assert(out@ =~= spec_encode_sats(sats_view(sats@)));
    }
    out
}

fn dec_state(b: &Vec<u8>, i: usize) -> (r: Result<(State, usize), DecodeError>)
    requires
        i <= b@.len(),
    ensures
        match r {
            Ok(p) => spec_dec_state(b@, i as int) == Some((p.0, p.1 as int)) && p.1 <= b@.len(),
            Err(_) => spec_dec_state(b@, i as int) is None,
        },
{
    let (start_bits, j1) = match dec_u32(b, i) {
        Ok(p) => p,
        Err(e) => {
            return Err(e);
        },
    };
    let (qs, j2) = match dec_u32(b, j1) {
        Ok(p) => p,
        Err(e) => {
            return Err(e);
        },
    };
    Ok((State { start_bits, qs }, j2))
}

fn dec_states(b: &Vec<u8>, i: usize, n: usize) -> (r: Result<(Vec<State>, usize), DecodeError>)
    requires
        i <= b@.len(),
    ensures
        match r {
            Ok(p) => spec_dec_states(b@, i as int, n as nat) == Some((p.0@, p.1 as int)) && p.1
                <= b@.len(),
            Err(_) => spec_dec_states(b@, i as int, n as nat) is None,
        },
{
    let mut acc: Vec<State> = Vec::new();
    let mut pos: usize = i;
    let mut rem: usize = n;
    while rem > 0
        invariant
            pos <= b@.len(),
            spec_dec_states(b@, i as int, n as nat) == (match spec_dec_states(
                b@,
                pos as int,
                rem as nat,
            ) {
                Some(q) => Some((acc@ + q.0, q.1)),
                None => None::<(Seq<State>, int)>,
            }),
        decreases rem,
    {
        let (s, j) = match dec_state(b, pos) {
            Ok(p) => p,
            Err(e) => {
                return Err(e);
            },
        };
        acc.push(s);
        proof {
            let ghost tail = spec_dec_states(b@, j as int, (rem - 1) as nat);
            if tail is Some {
                let q = tail->0;
                assert(acc@ + q.0 =~= acc@.drop_last() + (seq![s] + q.0));
            }
        }
        pos = j;
        rem = rem - 1;
    }
    proof {
        assert(spec_dec_states(b@, pos as int, 0) == Some((Seq::<State>::empty(), pos as int)));
        assert(acc@ + Seq::<State>::empty() =~= acc@);
    }
    Ok((acc, pos))
}

fn dec_sat(b: &Vec<u8>, i: usize) -> (r: Result<(Satellite, usize), DecodeError>)
    requires
        i <= b@.len(),
    ensures
        match r {
            Ok(p) => spec_dec_sat(b@, i as int) == Some((p.0@, p.1 as int)) && p.1 <= b@.len(),
            Err(_) => spec_dec_sat(b@, i as int) is None,
        },
{
    let (sat_id, j1) = match dec_u32(b, i) {
        Ok(p) => p,
        Err(e) => {
            return Err(e);
        },
    };
    let (cnt, j2) = match dec_u32(b, j1) {
        Ok(p) => p,
        Err(e) => {
            return Err(e);
        },
    };
    let (entries, j3) = match dec_states(b, j2, cnt as usize) {
        Ok(p) => p,
        Err(e) => {
            return Err(e);
        },
    };
    Ok((Satellite { sat_id, entries }, j3))
}

fn dec_sats(b: &Vec<u8>, i: usize, n: usize) -> (r: Result<(Vec<Satellite>, usize), DecodeError>)
    requires
        i <= b@.len(),
    ensures
        match r {
            Ok(p) => spec_dec_sats(b@, i as int, n as nat) == Some((sats_view(p.0@), p.1 as int))
                && p.1 <= b@.len(),
            Err(_) => spec_dec_sats(b@, i as int, n as nat) is None,
        },
{
    let mut acc: Vec<Satellite> = Vec::new();
    let mut pos: usize = i;
    let mut rem: usize = n;
    while rem > 0
        invariant
            pos <= b@.len(),
            spec_dec_sats(b@, i as int, n as nat) == (match spec_dec_sats(
                b@,
                pos as int,
                rem as nat,
            ) {
                Some(q) => Some((sats_view(acc@) + q.0, q.1)),
                None => None::<(Seq<SatV>, int)>,
            }),
        decreases rem,
    {
        let (sat, j) = match dec_sat(b, pos) {
            Ok(p) => p,
            Err(e) => {
                return Err(e);
            },
        };
        let ghost sv = sat@;
        acc.push(sat);
        proof {
            assert(sats_view(acc@) =~= sats_view(acc@.drop_last()).push(sv));
            let ghost tail = spec_dec_sats(b@, j as int, (rem - 1) as nat);
            if tail is Some {
                let q = tail->0;
                assert(sats_view(acc@) + q.0 =~= sats_view(acc@.drop_last()) + (seq![sv] + q.0));
            }
        }
        pos = j;
        rem = rem - 1;
    }
    proof {
        assert(spec_dec_sats(b@, pos as int, 0) == Some((Seq::<SatV>::empty(), pos as int)));
        assert(sats_view(acc@) + Seq::<SatV>::empty() =~= sats_view(acc@));
    }
    Ok((acc, pos))
}

/// Deserializes a satellite artifact, recovering exactly the encoded
/// satellite sequence; fails on any payload that is not such an encoding.
pub fn decode_sat_stats(b: &Vec<u8>) -> (r: Result<Vec<Satellite>, DecodeError>)
    ensures
        match r {
            Ok(v) => spec_decode_sats(b@) == Some(sats_view(v@)),
            Err(_) => spec_decode_sats(b@) is None,
        },
{
    let (cnt, j1) = match dec_u32(b, 0) {
        Ok(p) => p,
        Err(e) => {
            return Err(e);
        },
    };
    let (sats, j2) = match dec_sats(b, j1, cnt as usize) {
        Ok(p) => p,
        Err(e) => {
            return Err(e);
        },
    };
    if j2 != b.len() {
        return Err(DecodeError { offset: j2 });
    }
    Ok(sats)
}

// ---------------------------------------------------------------------------
// Hops and routes
// ---------------------------------------------------------------------------

/// The 15-byte encoding of one hop.
pub open spec fn spec_enc_hop(h: Hop) -> Seq<u8> {
    seq![h.typ] + spec_u32_to_le_bytes(h.id) + spec_u32_to_le_bytes(h.lat_bits)
        + spec_u32_to_le_bytes(h.lon_bits) + spec_u16_to_le_bytes(h.alt)
}

/// Decodes one hop at offset `i`.
pub open spec fn spec_dec_hop(b: Seq<u8>, i: int) -> Option<(Hop, int)> {
    match spec_dec_u8(b, i) {
        Some(p1) => match spec_dec_u32(b, p1.1) {
            Some(p2) => match spec_dec_u32(b, p2.1) {
                Some(p3) => match spec_dec_u32(b, p3.1) {
                    Some(p4) => match spec_dec_u16(b, p4.1) {
                        Some(p5) => Some(
                            (
                                Hop {
                                    typ: p1.0,
                                    id: p2.0,
                                    lat_bits: p3.0,
                                    lon_bits: p4.0,
                                    alt: p5.0,
                                },
                                p5.1,
                            ),
                        ),
                        None => None,
                    },
                    None => None,
                },
                None => None,
            },
            None => None,
        },
        None => None,
    }
}

/// The concatenated encodings of a hop sequence.
pub open spec fn spec_enc_hops(hs: Seq<Hop>) -> Seq<u8>
    decreases hs.len(),
{
    if hs.len() == 0 {
        Seq::empty()
    } else {
        spec_enc_hop(hs[0]) + spec_enc_hops(hs.skip(1))
    }
}

/// Decodes exactly `n` consecutive hops starting at offset `i`.
pub open spec fn spec_dec_hops(b: Seq<u8>, i: int, n: nat) -> Option<(Seq<Hop>, int)>
    decreases n,
{
    if n == 0 {
        Some((Seq::empty(), i))
    } else {
        match spec_dec_hop(b, i) {
            Some(p) => match spec_dec_hops(b, p.1, (n - 1) as nat) {
                Some(q) => Some((seq![p.0] + q.0, q.1)),
                None => None,
            },
            None => None,
        }
    }
}

proof fn lemma_enc_hop_len(h: Hop)
    ensures
        spec_enc_hop(h).len() == 15,
{
    lemma_auto_spec_u32_to_from_le_bytes();
    lemma_auto_spec_u16_to_from_le_bytes();
    assert(spec_u32_to_le_bytes(h.id).len() == 4);
    assert(spec_u32_to_le_bytes(h.lat_bits).len() == 4);
    assert(spec_u32_to_le_bytes(h.lon_bits).len() == 4);
    assert(spec_u16_to_le_bytes(h.alt).len() == 2);
}

proof fn lemma_enc_hops_len(hs: Seq<Hop>)
    ensures
        spec_enc_hops(hs).len() == 15 * hs.len(),
    decreases hs.len(),
{
    if hs.len() > 0 {
        lemma_enc_hop_len(hs[0]);
        lemma_enc_hops_len(hs.skip(1));
    }
}

proof fn lemma_enc_hops_snoc(hs: Seq<Hop>, x: Hop)
    ensures
        spec_enc_hops(hs.push(x)) == spec_enc_hops(hs) + spec_enc_hop(x),
    decreases hs.len(),
{
    if hs.len() == 0 {
        assert(hs.push(x)[0] == x);
        assert(hs.push(x).skip(1) =~= Seq::<Hop>::empty());
        assert(spec_enc_hops(Seq::<Hop>::empty()) == Seq::<u8>::empty());
        assert(spec_enc_hops(hs.push(x)) =~= spec_enc_hops(hs) + spec_enc_hop(x));
    } else {
        assert(hs.push(x).skip(1) =~= hs.skip(1).push(x));
        lemma_enc_hops_snoc(hs.skip(1), x);
        assert(spec_enc_hops(hs.push(x)) =~= spec_enc_hops(hs) + spec_enc_hop(x));
    }
}

proof fn lemma_dec_enc_hop(b: Seq<u8>, i: int, h: Hop)
    requires
        0 <= i,
        i + 15 <= b.len(),
        b.subrange(i, i + 15) == spec_enc_hop(h),
    ensures
        spec_dec_hop(b, i) == Some((h, i + 15)),
{
    lemma_auto_spec_u32_to_from_le_bytes();
    lemma_auto_spec_u16_to_from_le_bytes();
    let t = seq![h.typ];
    let a = spec_u32_to_le_bytes(h.id);
    let c = spec_u32_to_le_bytes(h.lat_bits);
    let d = spec_u32_to_le_bytes(h.lon_bits);
    let e = spec_u16_to_le_bytes(h.alt);
    assert(a.len() == 4 && c.len() == 4 && d.len() == 4 && e.len() == 2);
    lemma_subrange_concat(b, i, t + a + c + d, e);
    lemma_subrange_concat(b, i, t + a + c, d);
    lemma_subrange_concat(b, i, t + a, c);
    lemma_subrange_concat(b, i, t, a);
    assert(b.subrange(i, i + 1)[0] == b[i]);
    assert(spec_dec_u8(b, i) == Some((h.typ, i + 1)));
    lemma_dec_enc_u32(b, i + 1, h.id);
    lemma_dec_enc_u32(b, i + 5, h.lat_bits);
    lemma_dec_enc_u32(b, i + 9, h.lon_bits);
    lemma_dec_enc_u16(b, i + 13, h.alt);
}

proof fn lemma_dec_enc_hops(b: Seq<u8>, i: int, hs: Seq<Hop>)
    requires
        0 <= i,
        i + 15 * hs.len() <= b.len(),
        b.subrange(i, i + 15 * hs.len()) == spec_enc_hops(hs),
    ensures
        spec_dec_hops(b, i, hs.len()) == Some((hs, i + 15 * hs.len())),
    decreases hs.len(),
{
    if hs.len() == 0 {
        assert(hs =~= Seq::<Hop>::empty());
    } else {
        let h0 = hs[0];
        let rest = hs.skip(1);
        lemma_enc_hop_len(h0);
        lemma_enc_hops_len(rest);
        lemma_subrange_concat(b, i, spec_enc_hop(h0), spec_enc_hops(rest));
        lemma_dec_enc_hop(b, i, h0);
        lemma_dec_enc_hops(b, i + 15, rest);
        assert(seq![h0] + rest =~= hs);
    }
}

/// The encoding of one route: identifier, length, hop count, hops.
pub open spec fn spec_enc_route(v: RouteV) -> Seq<u8> {
    spec_u32_to_le_bytes(v.pid) + spec_u64_to_le_bytes(v.length) + spec_u32_to_le_bytes(
        v.hops.len() as u32,
    ) + spec_enc_hops(v.hops)
}

/// Decodes one route at offset `i`.
pub open spec fn spec_dec_route(b: Seq<u8>, i: int) -> Option<(RouteV, int)> {
    match spec_dec_u32(b, i) {
        Some(p1) => match spec_dec_u64(b, p1.1) {
            Some(p2) => match spec_dec_u32(b, p2.1) {
                Some(p3) => match spec_dec_hops(b, p3.1, p3.0 as nat) {
                    Some(q) => Some((RouteV { pid: p1.0, length: p2.0, hops: q.0 }, q.1)),
                    None => None,
                },
                None => None,
            },
            None => None,
        },
        None => None,
    }
}

/// The concatenated encodings of a route sequence.
pub open spec fn spec_enc_routes(vs: Seq<RouteV>) -> Seq<u8>
    decreases vs.len(),
{
    if vs.len() == 0 {
        Seq::empty()
    } else {
        spec_enc_route(vs[0]) + spec_enc_routes(vs.skip(1))
    }
}

/// Decodes exactly `n` consecutive routes starting at offset `i`.
pub open spec fn spec_dec_routes(b: Seq<u8>, i: int, n: nat) -> Option<(Seq<RouteV>, int)>
    decreases n,
{
    if n == 0 {
        Some((Seq::empty(), i))
    } else {
        match spec_dec_route(b, i) {
            Some(p) => match spec_dec_routes(b, p.1, (n - 1) as nat) {
                Some(q) => Some((seq![p.0] + q.0, q.1)),
                None => None,
            },
            None => None,
        }
    }
}

/// The whole route artifact: count, then the routes.
pub open spec fn spec_encode_routes(vs: Seq<RouteV>) -> Seq<u8> {
    spec_u32_to_le_bytes(vs.len() as u32) + spec_enc_routes(vs)
}

/// Decodes a whole route artifact; `None` on truncation, an impossible
/// count, or trailing bytes.
pub open spec fn spec_decode_routes(b: Seq<u8>) -> Option<Seq<RouteV>> {
    match spec_dec_u32(b, 0) {
        Some(p) => match spec_dec_routes(b, p.1, p.0 as nat) {
            Some(q) => if q.1 == b.len() {
                Some(q.0)
            } else {
                None
            },
            None => None,
        },
        None => None,
    }
}

proof fn lemma_enc_routes_snoc(vs: Seq<RouteV>, x: RouteV)
    ensures
        spec_enc_routes(vs.push(x)) == spec_enc_routes(vs) + spec_enc_route(x),
    decreases vs.len(),
{
    if vs.len() == 0 {
        assert(vs.push(x)[0] == x);
        assert(vs.push(x).skip(1) =~= Seq::<RouteV>::empty());
        assert(spec_enc_routes(Seq::<RouteV>::empty()) == Seq::<u8>::empty());
        assert(spec_enc_routes(vs.push(x)) =~= spec_enc_routes(vs) + spec_enc_route(x));
    } else {
        assert(vs.push(x).skip(1) =~= vs.skip(1).push(x));
        lemma_enc_routes_snoc(vs.skip(1), x);
        assert(spec_enc_routes(vs.push(x)) =~= spec_enc_routes(vs) + spec_enc_route(x));
    }
}

proof fn lemma_dec_enc_route(b: Seq<u8>, i: int, v: RouteV)
    requires
        0 <= i,
        v.hops.len() <= 0xffffffff,
        i + spec_enc_route(v).len() <= b.len(),
        b.subrange(i, i + spec_enc_route(v).len()) == spec_enc_route(v),
    ensures
        spec_dec_route(b, i) == Some((v, i + spec_enc_route(v).len())),
{
    lemma_auto_spec_u32_to_from_le_bytes();
    lemma_auto_spec_u64_to_from_le_bytes();
    lemma_enc_hops_len(v.hops);
    let n = v.hops.len();
    let a = spec_u32_to_le_bytes(v.pid);
    let c = spec_u64_to_le_bytes(v.length);
    let d = spec_u32_to_le_bytes(n as u32);
    let e = spec_enc_hops(v.hops);
    assert(a.len() == 4 && c.len() == 8 && d.len() == 4);
    assert(spec_enc_route(v).len() == 16 + 15 * n);
    lemma_subrange_concat(b, i, a + c + d, e);
    lemma_subrange_concat(b, i, a + c, d);
    lemma_subrange_concat(b, i, a, c);
    lemma_dec_enc_u32(b, i, v.pid);
    lemma_dec_enc_u64(b, i + 4, v.length);
    lemma_dec_enc_u32(b, i + 12, n as u32);
    assert((n as u32) as nat == n);
    lemma_dec_enc_hops(b, i + 16, v.hops);
}

proof fn lemma_dec_enc_routes(b: Seq<u8>, i: int, vs: Seq<RouteV>)
    requires
        0 <= i,
        forall|k: int| 0 <= k < vs.len() ==> (#[trigger] vs[k]).hops.len() <= 0xffffffff,
        i + spec_enc_routes(vs).len() <= b.len(),
        b.subrange(i, i + spec_enc_routes(vs).len()) == spec_enc_routes(vs),
    ensures
        spec_dec_routes(b, i, vs.len()) == Some((vs, i + spec_enc_routes(vs).len())),
    decreases vs.len(),
{
    if vs.len() == 0 {
        assert(vs =~= Seq::<RouteV>::empty());
    } else {
        let v0 = vs[0];
        let rest = vs.skip(1);
        let e0 = spec_enc_route(v0);
        let erest = spec_enc_routes(rest);
        assert(spec_enc_routes(vs) == e0 + erest);
        lemma_subrange_concat(b, i, e0, erest);
        lemma_dec_enc_route(b, i, v0);
        lemma_dec_enc_routes(b, i + e0.len() as int, rest);
        assert(seq![v0] + rest =~= vs);
    }
}

/// LAW — lossless round trip of the route artifact: decoding an encoded
/// route sequence yields exactly that sequence.  The count fields force the
/// sequence and each hop list to fit a `u32`.
pub proof fn lemma_routes_round_trip(vs: Seq<RouteV>)
    requires
        vs.len() <= 0xffffffff,
        forall|k: int| 0 <= k < vs.len() ==> (#[trigger] vs[k]).hops.len() <= 0xffffffff,
    ensures
        spec_decode_routes(spec_encode_routes(vs)) == Some(vs),
{
    lemma_auto_spec_u32_to_from_le_bytes();
    let b = spec_encode_routes(vs);
    let a = spec_u32_to_le_bytes(vs.len() as u32);
    assert(a.len() == 4);
    assert(b.subrange(0, b.len() as int) =~= b);
    lemma_subrange_concat(b, 0, a, spec_enc_routes(vs));
    lemma_dec_enc_u32(b, 0, vs.len() as u32);
    assert((vs.len() as u32) as nat == vs.len());
    lemma_dec_enc_routes(b, 4, vs);
}

fn enc_hop(out: &mut Vec<u8>, h: &Hop)
    ensures
        final(out)@ == old(out)@ + spec_enc_hop(*h),
{
    enc_u8(out, h.typ);
    enc_u32(out, h.id);
    enc_u32(out, h.lat_bits);
    enc_u32(out, h.lon_bits);
    enc_u16(out, h.alt);
    proof {
        assert(out@ =~= old(out)@ + spec_enc_hop(*h));
    }
}

fn enc_route(out: &mut Vec<u8>, route: &Route)
    requires
        route.hops@.len() <= 0xffffffff,
    ensures
        final(out)@ == old(out)@ + spec_enc_route(route@),
{
    enc_u32(out, route.pid);
    enc_u64(out, route.length);
    enc_u32(out, route.hops.len() as u32);
    let ghost head = old(out)@ + spec_u32_to_le_bytes(route.pid) + spec_u64_to_le_bytes(
        route.length,
    ) + spec_u32_to_le_bytes(route.hops@.len() as u32);
    let mut k: usize = 0;
    proof {
        assert(route.hops@.take(0) =~= Seq::<Hop>::empty());
        assert(out@ =~= head + spec_enc_hops(route.hops@.take(0)));
    }
    while k < route.hops.len()
        invariant
            k <= route.hops@.len(),
            out@ == head + spec_enc_hops(route.hops@.take(k as int)),
        decreases route.hops@.len() - k,
    {
        enc_hop(out, &route.hops[k]);
        proof {
            assert(route.hops@.take(k as int + 1) =~= route.hops@.take(k as int).push(
                route.hops@[k as int],
            ));
            lemma_enc_hops_snoc(route.hops@.take(k as int), route.hops@[k as int]);
            assert(out@ =~= head + spec_enc_hops(route.hops@.take(k as int + 1)));
        }
        k = k + 1;
    }
    proof {
        assert(route.hops@.take(route.hops@.len() as int) =~= route.hops@);
        assert(out@ =~= old(out)@ + spec_enc_route(route@));
    }
}

/// Serializes a route sequence to the compact binary artifact.
///
/// The count fields of the format force the sequence and each hop list to
/// fit a `u32`.
pub fn encode_routes(routes: &Vec<Route>) -> (out: Vec<u8>)
    requires
        routes@.len() <= 0xffffffff,
        forall|k: int| 0 <= k < routes@.len() ==> (#[trigger] routes@[k]).hops@.len() <= 0xffffffff,
    ensures
        out@ == spec_encode_routes(routes_view(routes@)),
{
    let mut out: Vec<u8> = Vec::new();
    enc_u32(&mut out, routes.len() as u32);
    let ghost head = spec_u32_to_le_bytes(routes_view(routes@).len() as u32);
    let mut k: usize = 0;
    proof {
        assert(routes_view(routes@).take(0) =~= Seq::<RouteV>::empty());
        assert(out@ =~= head + spec_enc_routes(routes_view(routes@).take(0)));
    }
    while k < routes.len()
        invariant
            k <= routes@.len(),
            routes@.len() <= 0xffffffff,
            forall|j: int|
                0 <= j < routes@.len() ==> (#[trigger] routes@[j]).hops@.len() <= 0xffffffff,
            out@ == head + spec_enc_routes(routes_view(routes@).take(k as int)),
        decreases routes@.len() - k,
    {
        enc_route(&mut out, &routes[k]);
        proof {
            assert(routes_view(routes@).take(k as int + 1) =~= routes_view(routes@).take(
                k as int,
            ).push(routes@[k as int]@));
            lemma_enc_routes_snoc(routes_view(routes@).take(k as int), routes@[k as int]@);
            assert(out@ =~= head + spec_enc_routes(routes_view(routes@).take(k as int + 1)));
        }
        k = k + 1;
    }
    proof {
        assert(routes_view(routes@).take(routes_view(routes@).len() as int) =~= routes_view(
            routes@,
        ));
        assert(out@ =~= spec_encode_routes(routes_view(routes@)));
    }
    out
}

fn dec_hop(b: &Vec<u8>, i: usize) -> (r: Result<(Hop, usize), DecodeError>)
    requires
        i <= b@.len(),
    ensures
        match r {
            Ok(p) => spec_dec_hop(b@, i as int) == Some((p.0, p.1 as int)) && p.1 <= b@.len(),
            Err(_) => spec_dec_hop(b@, i as int) is None,
        },
{
    let (typ, j1) = match dec_u8(b, i) {
        Ok(p) => p,
        Err(e) => {
            return Err(e);
        },
    };
    let (id, j2) = match dec_u32(b, j1) {
        Ok(p) => p,
        Err(e) => {
            return Err(e);
        },
    };
    let (lat_bits, j3) = match dec_u32(b, j2) {
        Ok(p) => p,
        Err(e) => {
            return Err(e);
        },
    };
    let (lon_bits, j4) = match dec_u32(b, j3) {
        Ok(p) => p,
        Err(e) => {
            return Err(e);
        },
    };
    let (alt, j5) = match dec_u16(b, j4) {
        Ok(p) => p,
        Err(e) => {
            return Err(e);
        },
    };
    Ok((Hop { typ, id, lat_bits, lon_bits, alt }, j5))
}

fn dec_hops(b: &Vec<u8>, i: usize, n: usize) -> (r: Result<(Vec<Hop>, usize), DecodeError>)
    requires
        i <= b@.len(),
    ensures
        match r {
            Ok(p) => spec_dec_hops(b@, i as int, n as nat) == Some((p.0@, p.1 as int)) && p.1
                <= b@.len(),
            Err(_) => spec_dec_hops(b@, i as int, n as nat) is None,
        },
{
    let mut acc: Vec<Hop> = Vec::new();
    let mut pos: usize = i;
    let mut rem: usize = n;
    while rem > 0
        invariant
            pos <= b@.len(),
            spec_dec_hops(b@, i as int, n as nat) == (match spec_dec_hops(
                b@,
                pos as int,
                rem as nat,
            ) {
                Some(q) => Some((acc@ + q.0, q.1)),
                None => None::<(Seq<Hop>, int)>,
            }),
        decreases rem,
    {
        let (h, j) = match dec_hop(b, pos) {
            Ok(p) => p,
            Err(e) => {
                return Err(e);
            },
        };
        acc.push(h);
        proof {
            let ghost tail = spec_dec_hops(b@, j as int, (rem - 1) as nat);
            if tail is Some {
                let q = tail->0;
                assert(acc@ + q.0 =~= acc@.drop_last() + (seq![h] + q.0));
            }
        }
        pos = j;
        rem = rem - 1;
    }
    proof {
        assert(spec_dec_hops(b@, pos as int, 0) == Some((Seq::<Hop>::empty(), pos as int)));
        assert(acc@ + Seq::<Hop>::empty() =~= acc@);
    }
    Ok((acc, pos))
}

fn dec_route(b: &Vec<u8>, i: usize) -> (r: Result<(Route, usize), DecodeError>)
    requires
        i <= b@.len(),
    ensures
        match r {
            Ok(p) => spec_dec_route(b@, i as int) == Some((p.0@, p.1 as int)) && p.1 <= b@.len(),
            Err(_) => spec_dec_route(b@, i as int) is None,
        },
{
    let (pid, j1) = match dec_u32(b, i) {
        Ok(p) => p,
        Err(e) => {
            return Err(e);
        },
    };
    let (length, j2) = match dec_u64(b, j1) {
        Ok(p) => p,
        Err(e) => {
            return Err(e);
        },
    };
    let (cnt, j3) = match dec_u32(b, j2) {
        Ok(p) => p,
        Err(e) => {
            return Err(e);
        },
    };
    let (hops, j4) = match dec_hops(b, j3, cnt as usize) {
        Ok(p) => p,
        Err(e) => {
            return Err(e);
        },
    };
    Ok((Route { pid, length, hops }, j4))
}

fn dec_routes(b: &Vec<u8>, i: usize, n: usize) -> (r: Result<(Vec<Route>, usize), DecodeError>)
    requires
        i <= b@.len(),
    ensures
        match r {
            Ok(p) => spec_dec_routes(b@, i as int, n as nat) == Some(
                (routes_view(p.0@), p.1 as int),
            ) && p.1 <= b@.len(),
            Err(_) => spec_dec_routes(b@, i as int, n as nat) is None,
        },
{
    let mut acc: Vec<Route> = Vec::new();
    let mut pos: usize = i;
    let mut rem: usize = n;
    while rem > 0
        invariant
            pos <= b@.len(),
            spec_dec_routes(b@, i as int, n as nat) == (match spec_dec_routes(
                b@,
                pos as int,
                rem as nat,
            ) {
                Some(q) => Some((routes_view(acc@) + q.0, q.1)),
                None => None::<(Seq<RouteV>, int)>,
            }),
        decreases rem,
    {
        let (route, j) = match dec_route(b, pos) {
            Ok(p) => p,
            Err(e) => {
                return Err(e);
            },
        };
        let ghost rv = route@;
        acc.push(route);
        proof {
            assert(routes_view(acc@) =~= routes_view(acc@.drop_last()).push(rv));
            let ghost tail = spec_dec_routes(b@, j as int, (rem - 1) as nat);
            if tail is Some {
                let q = tail->0;
                assert(routes_view(acc@) + q.0 =~= routes_view(acc@.drop_last()) + (seq![rv]
                    + q.0));
            }
        }
        pos = j;
        rem = rem - 1;
    }
    proof {
        assert(spec_dec_routes(b@, pos as int, 0) == Some((Seq::<RouteV>::empty(), pos as int)));
        assert(routes_view(acc@) + Seq::<RouteV>::empty() =~= routes_view(acc@));
    }
    Ok((acc, pos))
}

/// Deserializes a route artifact, recovering exactly the encoded route
/// sequence; fails on any payload that is not such an encoding.
pub fn decode_routes(b: &Vec<u8>) -> (r: Result<Vec<Route>, DecodeError>)
    ensures
        match r {
            Ok(v) => spec_decode_routes(b@) == Some(routes_view(v@)),
            Err(_) => spec_decode_routes(b@) is None,
        },
{
    let (cnt, j1) = match dec_u32(b, 0) {
        Ok(p) => p,
        Err(e) => {
            return Err(e);
        },
    };
    let (routes, j2) = match dec_routes(b, j1, cnt as usize) {
        Ok(p) => p,
        Err(e) => {
            return Err(e);
        },
    };
    if j2 != b.len() {
        return Err(DecodeError { offset: j2 });
    }
    Ok(routes)
}

} // verus!
