//! The time-series reconstructor: gap-filled queue-depth series per
//! satellite.
//!
//! Observed samples are sparse events.  For each satellite the reconstructor
//! keeps the last observed (timestamp, queue size) pair, seeded at (0, 0),
//! and a growing entry list seeded with a synthetic state at time 0 with
//! queue size 0.  A new observation first inserts synthetic states every 5
//! seconds starting at `round(last timestamp) + 5`, frozen at the previous
//! queue size, for every grid time strictly below the new timestamp, and
//! then the exact observation itself.
//!
//! The grid comparison `grid time < timestamp` is exact integer arithmetic:
//! for an integer `i` and a real `t`, `i < t` holds exactly when
//! `i < ceil(t)`, and each record carries `ceil` (and `round`) of its
//! timestamp as integer fields.  This avoids the drift of repeated
//! floating-point accumulation while landing on the same grid points.

use vstd::prelude::*;

use crate::bits::single_bits_from_uint;
use crate::bits::single_bits_of;
use crate::CADENCE;
use crate::types::SatRecord;
use crate::types::Satellite;
use crate::types::State;

verus! {

/// The synthetic state every satellite's series starts with: time 0,
/// queue size 0.  (The bit pattern of 0.0 seconds is 0.)
pub open spec fn seed_state() -> State {
    State { start_bits: 0, qs: 0 }
}

/// The synthetic gap-filling states at times `from, from + 5, ...`,
/// strictly below `lim`, all carrying the frozen queue size `qs`.
///
/// The measure is padded by the step width so that it stays non-negative
/// when the last step overshoots `lim`.
pub open spec fn grid_states(from: int, lim: int, qs: u32) -> Seq<State>
    decreases lim + 5 - from,
{
    if from >= lim {
        Seq::empty()
    } else {
        seq![State { start_bits: single_bits_of(from as nat) as u32, qs }] + grid_states(
            from + 5,
            lim,
            qs,
        )
    }
}

/// The reconstruction state of one satellite: the entries emitted so far and
/// the last observed (rounded timestamp, queue size) pair.
#[verifier::ext_equal]
pub struct FoldState {
    pub entries: Seq<State>,
    pub last_round: u32,
    pub last_qs: u32,
}

/// The state of a satellite before its first observation.
pub open spec fn init_fold() -> FoldState {
    FoldState { entries: seq![seed_state()], last_round: 0, last_qs: 0 }
}

/// One observation `r` applied to the reconstruction state `st`: synthetic
/// states from `last_round + 5` strictly below the new timestamp, then the
/// exact observation, then the last-observed pair moves to `r`.
pub open spec fn fold_step(st: FoldState, r: SatRecord) -> FoldState {
    FoldState {
        entries: st.entries + grid_states(st.last_round + 5, r.t_ceil as int, st.last_qs) + seq![
            State { start_bits: r.t_bits, qs: r.queue_size },
        ],
        last_round: r.t_round,
        last_qs: r.queue_size,
    }
}

/// The reconstruction state of satellite `id` after consuming `samples`:
/// the fold of [`fold_step`] over exactly the records carrying `id`, in
/// input order.
pub open spec fn sat_fold(samples: Seq<SatRecord>, id: u32) -> FoldState
    decreases samples.len(),
{
    if samples.len() == 0 {
        init_fold()
    } else {
        let st = sat_fold(samples.drop_last(), id);
        if samples.last().sat_id == id {
            fold_step(st, samples.last())
        } else {
            st
        }
    }
}

/// The reconstructed entry sequence of satellite `id`.
pub open spec fn sat_entries(samples: Seq<SatRecord>, id: u32) -> Seq<State> {
    sat_fold(samples, id).entries
}

/// The distinct satellite identifiers of `samples`, in order of first
/// appearance.
pub open spec fn sat_ids(samples: Seq<SatRecord>) -> Seq<u32>
    decreases samples.len(),
{
    if samples.len() == 0 {
        Seq::empty()
    } else {
        let prev = sat_ids(samples.drop_last());
        if prev.contains(samples.last().sat_id) {
            prev
        } else {
            prev.push(samples.last().sat_id)
        }
    }
}

/// Whether some record of `samples` carries the identifier `id`.
spec fn appears(samples: Seq<SatRecord>, id: u32) -> bool {
    exists|k: int| 0 <= k < samples.len() && samples[k].sat_id == id
}

/// The subsequence of `samples` carrying the identifier `id`, in order.
pub open spec fn filter_sat(samples: Seq<SatRecord>, id: u32) -> Seq<SatRecord>
    decreases samples.len(),
{
    if samples.len() == 0 {
        Seq::empty()
    } else {
        let p = filter_sat(samples.drop_last(), id);
        if samples.last().sat_id == id {
            p.push(samples.last())
        } else {
            p
        }
    }
}

proof fn lemma_grid_snoc(s: int, i: int, qs: u32)
    requires
        s <= i,
        (i - s) % 5 == 0,
    ensures
        grid_states(s, i + 5, qs) == grid_states(s, i, qs).push(
            State { start_bits: single_bits_of(i as nat) as u32, qs },
        ),
    decreases i - s,
{
    let x = State { start_bits: single_bits_of(i as nat) as u32, qs };
    if s == i {
        assert(grid_states(s + 5, s + 5, qs) == Seq::<State>::empty());
        assert(grid_states(s, s, qs) == Seq::<State>::empty());
        assert(grid_states(s, i + 5, qs) =~= grid_states(s, i, qs).push(x));
    } else {
        assert(i - s >= 5);
        lemma_grid_snoc(s + 5, i, qs);
        assert(grid_states(s, i + 5, qs) =~= grid_states(s, i, qs).push(x));
    }
}

proof fn lemma_grid_stop(s: int, i: int, lim: int, qs: u32)
    requires
        s <= i,
        (i - s) % 5 == 0,
        lim <= i,
        s == i || i - 5 < lim,
    ensures
        grid_states(s, lim, qs) == grid_states(s, i, qs),
    decreases i - s,
{
    if s == i {
        assert(grid_states(s, lim, qs) == Seq::<State>::empty());
        assert(grid_states(s, i, qs) == Seq::<State>::empty());
    } else if s >= lim {
        assert(i - s >= 5);
        assert(false);
    } else {
        assert(i - s >= 5);
        lemma_grid_stop(s + 5, i, lim, qs);
        assert(grid_states(s, lim, qs) =~= grid_states(s, i, qs));
    }
}

proof fn lemma_fold_absent(samples: Seq<SatRecord>, id: u32)
    requires
        !appears(samples, id),
    ensures
        sat_fold(samples, id) == init_fold(),
    decreases samples.len(),
{
    if samples.len() > 0 {
        assert(samples[samples.len() - 1].sat_id != id);
        assert forall|k: int|
            0 <= k < samples.drop_last().len() implies samples.drop_last()[k].sat_id != id by {
            assert(samples.drop_last()[k] == samples[k]);
        }
        lemma_fold_absent(samples.drop_last(), id);
    }
}

proof fn lemma_ids_appears(samples: Seq<SatRecord>, id: u32)
    ensures
        sat_ids(samples).contains(id) <==> appears(samples, id),
    decreases samples.len(),
{
    if samples.len() > 0 {
        let rest = samples.drop_last();
        let last = samples.last();
        lemma_ids_appears(rest, id);
        assert(appears(samples, id) <==> (appears(rest, id) || last.sat_id == id)) by {
            if appears(samples, id) {
                let k = choose|k: int| 0 <= k < samples.len() && samples[k].sat_id == id;
                if k < samples.len() - 1 {
                    assert(rest[k] == samples[k]);
                }
            }
            if appears(rest, id) {
                let k = choose|k: int| 0 <= k < rest.len() && rest[k].sat_id == id;
                assert(samples[k] == rest[k]);
            }
            if last.sat_id == id {
                assert(samples[samples.len() - 1].sat_id == id);
            }
        }
        let prev = sat_ids(rest);
        if prev.contains(last.sat_id) {
            assert(sat_ids(samples) == prev);
        } else {
            assert(sat_ids(samples) == prev.push(last.sat_id));
            assert(sat_ids(samples).contains(id) <==> (prev.contains(id) || last.sat_id == id))
                by {
                if prev.contains(id) {
                    let k = choose|k: int| 0 <= k < prev.len() && prev[k] == id;
                    assert(sat_ids(samples)[k] == id);
                }
                if last.sat_id == id {
                    assert(sat_ids(samples)[prev.len() as int] == id);
                }
                if sat_ids(samples).contains(id) {
                    let k = choose|k: int|
                        0 <= k < sat_ids(samples).len() && sat_ids(samples)[k] == id;
                    if k < prev.len() {
                        assert(prev[k] == id);
                    }
                }
            }
        }
    }
}

/// LAW — per-satellite independence: the reconstruction of one satellite
/// depends only on the subsequence of records carrying its identifier, not
/// on how records of different satellites interleave.
pub proof fn lemma_satellite_independence(samples: Seq<SatRecord>, id: u32)
    ensures
        sat_fold(samples, id) == sat_fold(filter_sat(samples, id), id),
    decreases samples.len(),
{
    if samples.len() > 0 {
        let rest = samples.drop_last();
        let last = samples.last();
        lemma_satellite_independence(rest, id);
        if last.sat_id == id {
            let f = filter_sat(rest, id).push(last);
            assert(filter_sat(samples, id) == f);
            assert(f.drop_last() =~= filter_sat(rest, id));
            assert(f.last() == last);
        }
    }
}

/// LAW — interleaving invariance: two inputs whose subsequences for
/// satellite `id` agree give that satellite the same reconstructed entries.
pub proof fn lemma_interleaving_irrelevant(a: Seq<SatRecord>, b: Seq<SatRecord>, id: u32)
    requires
        filter_sat(a, id) == filter_sat(b, id),
    ensures
        sat_entries(a, id) == sat_entries(b, id),
{
    lemma_satellite_independence(a, id);
    lemma_satellite_independence(b, id);
}

/// LAW — every satellite's series opens with the synthetic state at time 0
/// with queue size 0, whatever its records hold.
pub proof fn lemma_series_starts_at_zero(samples: Seq<SatRecord>, id: u32)
    ensures
        sat_entries(samples, id).len() >= 1,
        sat_entries(samples, id)[0] == seed_state(),
    decreases samples.len(),
{
    if samples.len() > 0 {
        lemma_series_starts_at_zero(samples.drop_last(), id);
    }
}

/// Appends to `entries` the synthetic grid states from `last_round + 5`
/// strictly below the new observation's timestamp, then the exact
/// observation itself.
fn extend_entries(entries: &mut Vec<State>, last_round: u32, last_qs: u32, r: SatRecord)
    requires
        last_round <= 0x1000000,
        r.t_ceil <= 0x1000000,
    ensures
        final(entries)@ == old(entries)@ + grid_states(
            last_round as int + 5,
            r.t_ceil as int,
            last_qs,
        ) + seq![State { start_bits: r.t_bits, qs: r.queue_size }],
{
    let ghost base = entries@;
    let ghost s0 = last_round as int + 5;
    let mut i: u32 = last_round + CADENCE;
    proof {
        assert(grid_states(s0, i as int, last_qs) == Seq::<State>::empty());
        assert(base + grid_states(s0, i as int, last_qs) =~= base);
    }
    while i < r.t_ceil
        invariant
            s0 == last_round as int + 5,
            r.t_ceil <= 0x1000000,
            s0 <= i as int,
            (i as int - s0) % 5 == 0,
            i as int == s0 || i as int - 5 < r.t_ceil as int,
            i <= 0x1000000 + 5,
            entries@ == base + grid_states(s0, i as int, last_qs),
        decreases r.t_ceil + 5 - i,
    {
        let sb = single_bits_from_uint(i);
        entries.push(State { start_bits: sb, qs: last_qs });
        proof {
            lemma_grid_snoc(s0, i as int, last_qs);
            assert(entries@ =~= base + grid_states(s0, i as int + 5, last_qs));
        }
        i = i + CADENCE;
    }
    proof {
        lemma_grid_stop(s0, i as int, r.t_ceil as int, last_qs);
    }
    entries.push(State { start_bits: r.t_bits, qs: r.queue_size });
    proof {
        assert(entries@ =~= base + grid_states(s0, r.t_ceil as int, last_qs) + seq![
            State { start_bits: r.t_bits, qs: r.queue_size },
        ]);
    }
}

/// One satellite's series under reconstruction, folded together with its
/// last observed (rounded timestamp, queue size) pair.
struct OpenSat {
    sat: Satellite,
    last_round: u32,
    last_qs: u32,
}

/// Reconstructs one gap-filled time series per distinct satellite
/// identifier, in order of first appearance.
///
/// Each record's integer timestamp projections must stay within the range
/// where grid times are exactly representable in single precision (below
/// 2^24).
pub fn transform_satstats(samples: &Vec<SatRecord>) -> (sats: Vec<Satellite>)
    requires
        forall|k: int|
            0 <= k < samples@.len() ==> (#[trigger] samples@[k]).t_round <= 0x1000000
                && samples@[k].t_ceil <= 0x1000000,
    ensures
        sats@.len() == sat_ids(samples@).len(),
        forall|k: int|
            0 <= k < sats@.len() ==> (#[trigger] sats@[k]).sat_id == sat_ids(samples@)[k],
        forall|k: int|
            0 <= k < sats@.len() ==> (#[trigger] sats@[k]).entries@ == sat_entries(
                samples@,
                sat_ids(samples@)[k],
            ),
{
    let mut open: Vec<OpenSat> = Vec::new();
    let mut i: usize = 0;
    proof {
        assert(samples@.take(0) =~= Seq::<SatRecord>::empty());
    }
    while i < samples.len()
        invariant
            i <= samples@.len(),
            forall|k: int|
                0 <= k < samples@.len() ==> (#[trigger] samples@[k]).t_round <= 0x1000000
                    && samples@[k].t_ceil <= 0x1000000,
            open@.len() == sat_ids(samples@.take(i as int)).len(),
            forall|k: int|
                0 <= k < open@.len() ==> (#[trigger] open@[k]).sat.sat_id == sat_ids(
                    samples@.take(i as int),
                )[k],
            forall|k: int|
                0 <= k < open@.len() ==> {
                    let st = sat_fold(samples@.take(i as int), (#[trigger] open@[k]).sat.sat_id);
                    open@[k].sat.entries@ == st.entries && open@[k].last_round == st.last_round
                        && open@[k].last_qs == st.last_qs
                },
            forall|k: int| 0 <= k < open@.len() ==> (#[trigger] open@[k]).last_round <= 0x1000000,
            forall|k1: int, k2: int|
                0 <= k1 < k2 < open@.len() ==> (#[trigger] open@[k1]).sat.sat_id != (
                #[trigger] open@[k2]).sat.sat_id,
        decreases samples@.len() - i,
    {
        let r = samples[i];
        let ghost pre = samples@.take(i as int);
        let ghost cur = samples@.take(i as int + 1);
        proof {
            assert(cur.drop_last() =~= pre);
            assert(cur.last() == r);
        }
        let mut j: usize = 0;
        while j < open.len() && open[j].sat.sat_id != r.sat_id
            invariant
                j <= open@.len(),
                forall|k: int| 0 <= k < j ==> (#[trigger] open@[k]).sat.sat_id != r.sat_id,
            decreases open@.len() - j,
        {
            j = j + 1;
        }
        let ghost old_open = open@;
        if j == open.len() {
            proof {
                lemma_ids_appears(pre, r.sat_id);
                if appears(pre, r.sat_id) {
                    let k = choose|k: int|
                        0 <= k < sat_ids(pre).len() && sat_ids(pre)[k] == r.sat_id;
                    assert(open@[k].sat.sat_id == r.sat_id);
                    assert(false);
                }
                lemma_fold_absent(pre, r.sat_id);
            }
            let mut entries: Vec<State> = Vec::new();
            entries.push(State { start_bits: 0, qs: 0 });
            proof {
                assert(entries@ =~= seq![seed_state()]);
            }
            extend_entries(&mut entries, 0, 0, r);
            open.push(
                OpenSat {
                    sat: Satellite { sat_id: r.sat_id, entries },
                    last_round: r.t_round,
                    last_qs: r.queue_size,
                },
            );
            proof {
                assert(!sat_ids(pre).contains(r.sat_id));
                assert(sat_ids(cur) == sat_ids(pre).push(r.sat_id));
                assert forall|k: int| 0 <= k < open@.len() implies {
                    let st = sat_fold(cur, (#[trigger] open@[k]).sat.sat_id);
                    open@[k].sat.entries@ == st.entries && open@[k].last_round == st.last_round
                        && open@[k].last_qs == st.last_qs
                } by {
                    if k < old_open.len() {
                        assert(open@[k] == old_open[k]);
                        assert(old_open[k].sat.sat_id != r.sat_id);
                        assert(sat_fold(cur, old_open[k].sat.sat_id) == sat_fold(
                            pre,
                            old_open[k].sat.sat_id,
                        ));
                    } else {
                        assert(open@[k].sat.sat_id == r.sat_id);
                        assert(sat_fold(cur, r.sat_id) == fold_step(init_fold(), r));
                    }
                }
            }
        } else {
            let mut os = open.remove(j);
            let lr = os.last_round;
            let lq = os.last_qs;
            extend_entries(&mut os.sat.entries, lr, lq, r);
            os.last_round = r.t_round;
            os.last_qs = r.queue_size;
            open.insert(j, os);
            proof {
                assert(old_open[j as int].sat.sat_id == r.sat_id);
                assert(open@ =~= old_open.update(
                    j as int,
                    OpenSat {
                        sat: Satellite {
                            sat_id: r.sat_id,
                            entries: open@[j as int].sat.entries,
                        },
                        last_round: r.t_round,
                        last_qs: r.queue_size,
                    },
                ));
                assert(sat_ids(pre).contains(r.sat_id)) by {
                    assert(sat_ids(pre)[j as int] == r.sat_id);
                }
                assert(sat_ids(cur) == sat_ids(pre));
                assert forall|k: int| 0 <= k < open@.len() implies {
                    let st = sat_fold(cur, (#[trigger] open@[k]).sat.sat_id);
                    open@[k].sat.entries@ == st.entries && open@[k].last_round == st.last_round
                        && open@[k].last_qs == st.last_qs
                } by {
                    if k == j as int {
                        assert(sat_fold(cur, r.sat_id) == fold_step(sat_fold(pre, r.sat_id), r));
                    } else {
                        assert(open@[k] == old_open[k]);
                        assert(old_open[k].sat.sat_id != r.sat_id);
                        assert(sat_fold(cur, old_open[k].sat.sat_id) == sat_fold(
                            pre,
                            old_open[k].sat.sat_id,
                        ));
                    }
                }
            }
        }
        i = i + 1;
    }
    proof {
        assert(samples@.take(samples@.len() as int) =~= samples@);
    }
    let ghost full = open@;
    let mut sats: Vec<Satellite> = Vec::new();
    while open.len() > 0
        invariant
            sats@.len() + open@.len() == full.len(),
            open@ == full.skip(sats@.len() as int),
            forall|k: int| 0 <= k < sats@.len() ==> (#[trigger] sats@[k]) == full[k].sat,
        decreases open@.len(),
    {
        let os = open.remove(0);
        proof {
            assert(full.skip(sats@.len() as int)[0] == full[sats@.len() as int]);
        }
        sats.push(os.sat);
        proof {
            assert(open@ =~= full.skip(sats@.len() as int));
        }
    }
    proof {
        assert forall|k: int| 0 <= k < sats@.len() implies (#[trigger] sats@[k]).sat_id == sat_ids(
            samples@,
        )[k] && sats@[k].entries@ == sat_entries(samples@, sat_ids(samples@)[k]) by {
            assert(sats@[k] == full[k].sat);
        }
    }
    sats
}

} // verus!
