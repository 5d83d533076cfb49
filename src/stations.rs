use vstd::prelude::*;

verus! {

/// A stop point as the feed describes it.
#[derive(Clone, Debug)]
pub struct StopPointDetails {
    pub id: String,
    pub common_name: String,
    pub station_naptan: Option<String>,
}

/// The feed's answer to a query for the stop points of some modes.
#[derive(Clone, Debug)]
pub struct StopPointModeResponse {
    pub stop_points: Vec<StopPointDetails>,
}

/// Whether a stop point is a station in its own right: its station code is
/// present and equal to its id.
pub open spec fn is_station(p: StopPointDetails) -> bool {
    match p.station_naptan {
        Some(n) => n@ == p.id@,
        None => false,
    }
}

/// `is_station` as a predicate.
pub open spec fn station_pred() -> spec_fn(StopPointDetails) -> bool {
    |p: StopPointDetails| is_station(p)
}

/// The stop points of both responses, in order, that are stations in their own
/// right.
pub fn select_stations(tube: StopPointModeResponse, rail: StopPointModeResponse) -> (r: Vec<StopPointDetails>)
    ensures
        r@ == (tube.stop_points@ + rail.stop_points@).filter(station_pred()),
{
    let ghost all = tube.stop_points@ + rail.stop_points@;
    let mut rest = tube.stop_points;
    let mut more = rail.stop_points;
    rest.append(&mut more);
    assert(rest@ == all);
    let ghost a0 = rest@;
    let n0 = rest.len();
    let mut out: Vec<StopPointDetails> = Vec::new();
    let mut k: usize = 0;
    while rest.len() > 0
        invariant
            rest@ == a0.subrange(k as int, a0.len() as int),
            k <= a0.len(),
            n0 == a0.len(),
            out@ == a0.take(k as int).filter(station_pred()),
        decreases rest@.len(),
    {
        let p = rest.remove(0);
        proof {
            reveal(Seq::filter);
            assert(a0.take(k as int + 1).drop_last() =~= a0.take(k as int));
            assert(p == a0[k as int]);
        }
        let keep = match &p.station_naptan {
            Some(n) => *n == p.id,
            None => false,
        };
        if keep {
            out.push(p);
        }
        k += 1;
    }
    assert(a0.take(a0.len() as int) =~= a0);
    out
}

/// Each station's id with its name, in order.
pub fn station_names(details: &Vec<StopPointDetails>) -> (r: Vec<(String, String)>)
    ensures
        r@.len() == details@.len(),
        forall|i: int|
            0 <= i < details@.len() ==> (#[trigger] r@[i]).0@ == details@[i].id@ && r@[i].1@
                == details@[i].common_name@,
{
    let mut out: Vec<(String, String)> = Vec::new();
    let mut i: usize = 0;
    while i < details.len()
        invariant
            i <= details@.len(),
            out@.len() == i,
            forall|m: int|
                0 <= m < i ==> (#[trigger] out@[m]).0@ == details@[m].id@ && out@[m].1@
                    == details@[m].common_name@,
        decreases details@.len() - i,
    {
        out.push((details[i].id.clone(), details[i].common_name.clone()));
        i += 1;
    }
    out
}

} // verus!
