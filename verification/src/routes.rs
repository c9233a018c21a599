//! The route builder: streaming aggregation of hop records into routes.
//!
//! Records arrive ordered so that records of the same packet are contiguous.
//! The builder keeps a current route identifier and an accumulating hop
//! buffer; a record with a new identifier finalizes the buffered hops into a
//! completed route.  Two separated runs of the same identifier deliberately
//! become two separate routes — the builder streams and never re-sorts.
//! An empty input yields an empty output.

use vstd::prelude::*;

use crate::types::Hop;
use crate::types::HopRecord;
use crate::types::Route;
use crate::types::RouteV;

verus! {

/// The views of a vector of routes.
pub open spec fn routes_view(routes: Seq<Route>) -> Seq<RouteV> {
    Seq::new(routes.len(), |k: int| routes[k]@)
}

/// Grouping of hop records by contiguous runs of the same packet identifier:
/// a record whose identifier matches the last open group joins it, any other
/// record opens a new group.  Every group is emitted with `length == 0`; the
/// physical path length is filled in afterwards (see [`Route::length`]).
pub open spec fn group_spec(records: Seq<HopRecord>) -> Seq<RouteV>
    decreases records.len(),
{
    if records.len() == 0 {
        Seq::empty()
    } else {
        let g = group_spec(records.drop_last());
        let r = records.last();
        if g.len() > 0 && g.last().pid == r.pid {
            g.update(
                g.len() - 1,
                RouteV { pid: g.last().pid, length: g.last().length, hops: g.last().hops.push(r.hop_spec()) },
            )
        } else {
            g.push(RouteV { pid: r.pid, length: 0, hops: seq![r.hop_spec()] })
        }
    }
}

/// LAW — every route carries at least one hop: a group is only ever opened
/// by a record, with that record's hop in it.
pub proof fn lemma_routes_have_hops(records: Seq<HopRecord>)
    ensures
        forall|k: int|
            0 <= k < group_spec(records).len() ==> (#[trigger] group_spec(
                records,
            )[k]).hops.len() >= 1,
    decreases records.len(),
{
    if records.len() > 0 {
        lemma_routes_have_hops(records.drop_last());
        let g = group_spec(records.drop_last());
        let gr = group_spec(records);
        assert forall|k: int| 0 <= k < gr.len() implies (#[trigger] gr[k]).hops.len() >= 1 by {
            if g.len() > 0 && g.last().pid == records.last().pid {
                if k < g.len() - 1 {
                    assert(gr[k] == g[k]);
                    assert(g[k].hops.len() >= 1);
                }
            } else {
                if k < g.len() {
                    assert(gr[k] == g[k]);
                    assert(g[k].hops.len() >= 1);
                }
            }
        }
    }
}

/// Groups hop records into routes, one route per contiguous run of equal
/// packet identifiers, hops in input order.  Every returned route has
/// `length == 0`; the caller computes the physical path length and stores it
/// through [`set_length`].
pub fn build_routes(records: &Vec<HopRecord>) -> (routes: Vec<Route>)
    ensures
        routes_view(routes@) == group_spec(records@),
{
    let mut routes: Vec<Route> = Vec::new();
    if records.len() == 0 {
        proof {
            assert(routes_view(routes@) =~~= group_spec(records@));
        }
        return routes;
    }
    let mut cur_pid: u32 = records[0].pid;
    let mut hops: Vec<Hop> = Vec::new();
    hops.push(records[0].hop());
    let mut i: usize = 1;
    proof {
        assert(records@.take(1).drop_last() =~= Seq::<HopRecord>::empty());
        assert(records@.take(1).last() == records@[0]);
        assert(group_spec(Seq::<HopRecord>::empty()) == Seq::<RouteV>::empty());
        assert(group_spec(records@.take(1)) =~~= routes_view(routes@).push(
            RouteV { pid: cur_pid, length: 0, hops: hops@ },
        ));
    }
    while i < records.len()
        invariant
            1 <= i <= records.len(),
            group_spec(records@.take(i as int)) == routes_view(routes@).push(
                RouteV { pid: cur_pid, length: 0, hops: hops@ },
            ),
        decreases records.len() - i,
    {
        let ghost pre = records@.take(i as int);
        let ghost pre_routes = routes@;
        let ghost pre_hops = hops@;
        let ghost pre_pid = cur_pid;
        let r = records[i];
        if r.pid != cur_pid {
            routes.push(Route { pid: cur_pid, length: 0, hops });
            hops = Vec::new();
            cur_pid = r.pid;
        }
        hops.push(r.hop());
        i = i + 1;
        proof {
            assert(records@.take(i as int).drop_last() =~= pre);
            assert(records@.take(i as int).last() == r);
            let g = group_spec(pre);
            if r.pid == pre_pid {
                assert(g.last() == RouteV { pid: pre_pid, length: 0, hops: pre_hops });
                assert(group_spec(records@.take(i as int)) =~~= routes_view(routes@).push(
                    RouteV { pid: cur_pid, length: 0, hops: hops@ },
                ));
            } else {
                assert(routes_view(routes@) =~~= routes_view(pre_routes).push(
                    RouteV { pid: pre_pid, length: 0, hops: pre_hops },
                ));
                assert(group_spec(records@.take(i as int)) =~~= routes_view(routes@).push(
                    RouteV { pid: cur_pid, length: 0, hops: hops@ },
                ));
            }
        }
    }
    routes.push(Route { pid: cur_pid, length: 0, hops });
    proof {
        assert(records@.take(records@.len() as int) =~= records@);
        assert(routes_view(routes@) =~~= group_spec(records@));
    }
    routes
}

/// Stores a computed path length in a route, leaving the identifier and the
/// hops untouched.  The length of a route is the rounded sum of the chord
/// distances between consecutive hops; that sum is floating-point geometry,
/// computed by the caller outside the verified core.
pub fn set_length(route: &mut Route, length_km: u64)
    ensures
        final(route).pid == old(route).pid,
        final(route).hops@ == old(route).hops@,
        final(route).length == length_km,
{
    route.length = length_km;
}

} // verus!
