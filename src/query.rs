use vstd::prelude::*;

use crate::store::{
    all_proper, chronological, in_time_order, intervals_view, lemma_filter_keeps_order,
    lemma_in_time_order, HistoryInterval, IntervalValue, MemoryStore,
};

verus! {

/// Whether an interval overlaps the window from `from` to `to`: it ends (if it
/// has ended) no earlier than `from`, and starts no later than `to`.
pub open spec fn overlaps(r: IntervalValue, from: i64, to: i64) -> bool {
    (r.end_time is None || r.end_time->0 >= from) && r.start_time <= to
}

/// `overlaps` as a predicate.
pub open spec fn overlaps_pred(from: i64, to: i64) -> spec_fn(IntervalValue) -> bool {
    |r: IntervalValue| overlaps(r, from, to)
}

/// Whether an interval belongs to entity `e`, as a predicate.
pub open spec fn entity_pred(e: Seq<char>) -> spec_fn(IntervalValue) -> bool {
    |r: IntervalValue| r.entity_id == e
}

/// The intervals of one entity, in the order of the rows they came from.
#[derive(Debug)]
pub struct EntityHistory {
    pub entity_id: String,
    pub intervals: Vec<HistoryInterval>,
}

/// Whether `groups` holds the intervals of `rows` grouped by entity: one group for
/// each entity that occurs, each with exactly that entity's intervals in their
/// order in `rows`.
pub open spec fn grouped(rows: Seq<IntervalValue>, groups: Seq<EntityHistory>) -> bool {
    &&& forall|g: int|
        0 <= g < groups.len() ==> intervals_view(#[trigger] groups[g].intervals@) == rows.filter(
            entity_pred(groups[g].entity_id@),
        )
    &&& forall|g: int| 0 <= g < groups.len() ==> #[trigger] groups[g].intervals@.len() > 0
    &&& forall|g: int, h: int|
        0 <= g < groups.len() && 0 <= h < groups.len() && g != h ==> #[trigger] groups[g].entity_id@
            != #[trigger] groups[h].entity_id@
    &&& forall|m: int| 0 <= m < rows.len() ==> #[trigger] has_group(groups, rows[m].entity_id)
}

/// Whether one of `groups` is for entity `e`.
pub open spec fn has_group(groups: Seq<EntityHistory>, e: Seq<char>) -> bool {
    exists|g: int| 0 <= g < groups.len() && #[trigger] groups[g].entity_id@ == e
}

/// A filter that keeps nothing of a sequence gives the empty sequence.
proof fn lemma_filter_none<A>(s: Seq<A>, pred: spec_fn(A) -> bool)
    requires
        forall|m: int| 0 <= m < s.len() ==> !pred(#[trigger] s[m]),
    ensures
        s.filter(pred) == Seq::<A>::empty(),
    decreases s.len(),
{
    reveal(Seq::filter);
    if s.len() > 0 {
        lemma_filter_none(s.drop_last(), pred);
    }
}

/// Filtering a sequence one element longer.
proof fn lemma_filter_step<A>(s: Seq<A>, k: int, pred: spec_fn(A) -> bool)
    requires
        0 <= k < s.len(),
    ensures
        s.take(k + 1).filter(pred) == if pred(s[k]) {
            s.take(k).filter(pred).push(s[k])
        } else {
            s.take(k).filter(pred)
        },
{
    reveal(Seq::filter);
    assert(s.take(k + 1).drop_last() =~= s.take(k));
}

/// Groups `rows` by entity, keeping each entity's intervals in their order.
pub fn group_by_entity(rows: Vec<HistoryInterval>) -> (groups: Vec<EntityHistory>)
    ensures
        grouped(intervals_view(rows@), groups@),
{
    let ghost rows0 = rows@;
    let n = rows.len();
    let ghost rv = intervals_view(rows0);
    let mut rest = rows;
    let mut groups: Vec<EntityHistory> = Vec::new();
    let mut k: usize = 0;
    while rest.len() > 0
        invariant
            rest@ == rows0.subrange(k as int, rows0.len() as int),
            k <= rows0.len(),
            rows0.len() <= usize::MAX,
            rv == intervals_view(rows0),
            grouped(rv.take(k as int), groups@),
        decreases rest@.len(),
    {
        let row = rest.remove(0);
        let ghost groups_before = groups@;
        proof {
            assert(row == rows0[k as int]);
            assert(rv[k as int] == row@);
        }
        let mut g: usize = 0;
        let mut found = false;
        while g < groups.len() && !found
            invariant
                g <= groups@.len(),
                groups@ == groups_before,
                found ==> g < groups@.len() && groups@[g as int].entity_id@ == row.entity_id@,
                !found ==> forall|h: int| 0 <= h < g ==> groups@[h].entity_id@ != row.entity_id@,
            decreases groups@.len() - g + if found { 0int } else { 1int },
        {
            if groups[g].entity_id == row.entity_id {
                found = true;
            } else {
                g += 1;
            }
        }
        let ghost rvk = rv.take(k as int);
        let ghost rvk1 = rv.take(k as int + 1);
        assert(rvk1 == rvk.push(row@)) by {
            assert(rvk1 =~= rvk.push(row@));
        }
        if found {
            groups[g].intervals.push(row);
            proof {
                assert forall|h: int| 0 <= h < groups@.len() implies intervals_view(
                    #[trigger] groups@[h].intervals@,
                ) == rvk1.filter(entity_pred(groups@[h].entity_id@)) by {
                    lemma_filter_step(rv, k as int, entity_pred(groups@[h].entity_id@));
                    if h == g {
                        assert(intervals_view(groups@[h].intervals@) =~= intervals_view(
                            groups_before[h].intervals@,
                        ).push(rv[k as int]));
                    } else {
                        assert(groups@[h] == groups_before[h]);
                    }
                }
                assert forall|m: int| 0 <= m < rvk1.len() implies #[trigger] has_group(
                    groups@,
                    rvk1[m].entity_id,
                ) by {
                    if m < k {
                        assert(rvk1[m] == rvk[m]);
                        assert(has_group(groups_before, rvk[m].entity_id));
                        let h = choose|h: int|
                            0 <= h < groups_before.len() && #[trigger] groups_before[h].entity_id@
                                == rvk[m].entity_id;
                        assert(groups@[h].entity_id == groups_before[h].entity_id);
                        assert(has_group(groups@, rvk1[m].entity_id));
                    } else {
                        assert(groups@[g as int].entity_id@ == rvk1[m].entity_id);
                        assert(has_group(groups@, rvk1[m].entity_id));
                    }
                }
                assert forall|h: int| 0 <= h < groups@.len() implies #[trigger] groups@[h].intervals@.len()
                    > 0 by {
                    if h != g {
                        assert(groups@[h] == groups_before[h]);
                    }
                }
                assert forall|a: int, b: int|
                    0 <= a < groups@.len() && 0 <= b < groups@.len() && a != b implies #[trigger] groups@[a].entity_id@
                    != #[trigger] groups@[b].entity_id@ by {
                    assert(groups@[a].entity_id == groups_before[a].entity_id);
                    assert(groups@[b].entity_id == groups_before[b].entity_id);
                }
            }
        } else {
            assert(forall|h: int|
                0 <= h < groups_before.len() ==> #[trigger] groups_before[h].entity_id@
                    != row.entity_id@);
            let entity_id = row.entity_id.clone();
            let mut intervals: Vec<HistoryInterval> = Vec::new();
            intervals.push(row);
            groups.push(EntityHistory { entity_id, intervals });
            proof {
                let n = groups_before.len() as int;
                assert forall|h: int| 0 <= h < groups@.len() implies intervals_view(
                    #[trigger] groups@[h].intervals@,
                ) == rvk1.filter(entity_pred(groups@[h].entity_id@)) by {
                    lemma_filter_step(rv, k as int, entity_pred(groups@[h].entity_id@));
                    if h == n {
                        assert forall|m: int| 0 <= m < rvk.len() implies !entity_pred(
                            groups@[h].entity_id@,
                        )(#[trigger] rvk[m]) by {
                            assert(groups@[h].entity_id@ == row.entity_id@);
                            if rvk[m].entity_id == row.entity_id@ {
                                assert(has_group(groups_before, rvk[m].entity_id));
                                let h2 = choose|h2: int|
                                    0 <= h2 < groups_before.len() && #[trigger] groups_before[h2].entity_id@
                                        == rvk[m].entity_id;
                                assert(groups_before[h2].entity_id@ != row.entity_id@);
                            }
                        }
                        lemma_filter_none(rvk, entity_pred(groups@[h].entity_id@));
                        assert(intervals_view(groups@[h].intervals@) =~= seq![rv[k as int]]);
                        assert(rvk.filter(entity_pred(groups@[h].entity_id@)).push(rv[k as int])
                            =~= seq![rv[k as int]]);
                    } else {
                        assert(groups@[h] == groups_before[h]);
                    }
                }
                assert forall|m: int| 0 <= m < rvk1.len() implies #[trigger] has_group(
                    groups@,
                    rvk1[m].entity_id,
                ) by {
                    if m < k {
                        assert(rvk1[m] == rvk[m]);
                        assert(has_group(groups_before, rvk[m].entity_id));
                        let h = choose|h: int|
                            0 <= h < groups_before.len() && #[trigger] groups_before[h].entity_id@
                                == rvk[m].entity_id;
                        assert(groups@[h] == groups_before[h]);
                        assert(has_group(groups@, rvk1[m].entity_id));
                    } else {
                        assert(groups@[n].entity_id@ == rvk1[m].entity_id);
                        assert(has_group(groups@, rvk1[m].entity_id));
                    }
                }
                assert forall|h: int| 0 <= h < groups@.len() implies #[trigger] groups@[h].intervals@.len()
                    > 0 by {
                    if h != n {
                        assert(groups@[h] == groups_before[h]);
                    }
                }
                assert forall|a: int, b: int|
                    0 <= a < groups@.len() && 0 <= b < groups@.len() && a != b implies #[trigger] groups@[a].entity_id@
                    != #[trigger] groups@[b].entity_id@ by {
                    if a != n {
                        assert(groups@[a] == groups_before[a]);
                    }
                    if b != n {
                        assert(groups@[b] == groups_before[b]);
                    }
                }
            }
        }
        k += 1;
    }
    assert(rv.take(rows0.len() as int) =~= rv);
    groups
}

/// Copies of the intervals of `rows` that overlap the window from `from` to
/// `to`, in order.
pub fn select_overlapping(rows: &Vec<HistoryInterval>, from: i64, to: i64) -> (r: Vec<HistoryInterval>)
    ensures
        intervals_view(r@) == intervals_view(rows@).filter(overlaps_pred(from, to)),
{
    let ghost rv = intervals_view(rows@);
    let ghost pred = overlaps_pred(from, to);
    let mut selected: Vec<HistoryInterval> = Vec::new();
    let mut i: usize = 0;
    while i < rows.len()
        invariant
            i <= rows@.len(),
            rv == intervals_view(rows@),
            pred == overlaps_pred(from, to),
            intervals_view(selected@) == rv.take(i as int).filter(pred),
        decreases rows@.len() - i,
    {
        let row = &rows[i];
        let ends_after = match row.end_time {
            Some(end) => end >= from,
            None => true,
        };
        proof {
            lemma_filter_step(rv, i as int, pred);
            assert(rv[i as int] == row@);
        }
        if ends_after && row.start_time <= to {
            let copy = row.duplicate();
            let ghost before = selected@;
            selected.push(copy);
            assert(intervals_view(selected@) =~= intervals_view(before).push(row@));
        }
        i += 1;
    }
    assert(rv.take(rows@.len() as int) =~= rv);
    selected
}

/// Grouping the overlapping intervals of a history whose intervals are proper
/// and chronological gives each entity's intervals in time order.
pub proof fn lemma_groups_in_time_order(
    rows: Seq<IntervalValue>,
    from: i64,
    to: i64,
    groups: Seq<EntityHistory>,
)
    requires
        all_proper(rows),
        chronological(rows),
        grouped(rows.filter(overlaps_pred(from, to)), groups),
    ensures
        forall|g: int|
            0 <= g < groups.len() ==> in_time_order(intervals_view(#[trigger] groups[g].intervals@)),
{
    let f = rows.filter(overlaps_pred(from, to));
    lemma_filter_keeps_order(rows, overlaps_pred(from, to));
    assert forall|g: int| 0 <= g < groups.len() implies in_time_order(
        intervals_view(#[trigger] groups[g].intervals@),
    ) by {
        let ep = entity_pred(groups[g].entity_id@);
        lemma_filter_keeps_order(f, ep);
        assert(intervals_view(groups[g].intervals@) == f.filter(ep));
        lemma_in_time_order(f.filter(ep));
    }
}

impl MemoryStore {
    /// The intervals that overlap the window from `from` to `to`, grouped by
    /// entity; in a well-formed store each entity's come in time order.
    pub fn get_status_history(&self, from: i64, to: i64) -> (r: Vec<EntityHistory>)
        ensures
            grouped(intervals_view(self@).filter(overlaps_pred(from, to)), r@),
            self.wf() ==> forall|g: int|
                0 <= g < r@.len() ==> in_time_order(intervals_view(#[trigger] r@[g].intervals@)),
    {
        let selected = select_overlapping(self.rows(), from, to);
        let groups = group_by_entity(selected);
        proof {
            if self.wf() {
                lemma_groups_in_time_order(intervals_view(self@), from, to, groups@);
            }
        }
        groups
    }
}

/// A range query returns an interval exactly when the interval overlaps the
/// window: each interval it returns ends (if it has ended) no earlier than
/// `from` and starts no later than `to`, and each such interval of the history
/// is returned, under its entity.
pub proof fn lemma_range_query_overlap(
    rows: Seq<IntervalValue>,
    from: i64,
    to: i64,
    groups: Seq<EntityHistory>,
)
    requires
        grouped(rows.filter(overlaps_pred(from, to)), groups),
    ensures
        forall|g: int, m: int|
            0 <= g < groups.len() && 0 <= m < groups[g].intervals@.len() ==> overlaps(
                #[trigger] groups[g].intervals@[m]@,
                from,
                to,
            ),
        forall|i: int|
            0 <= i < rows.len() && overlaps(#[trigger] rows[i], from, to) ==> exists|g: int|
                0 <= g < groups.len() && groups[g].entity_id@ == rows[i].entity_id
                    && intervals_view(#[trigger] groups[g].intervals@).contains(rows[i]),
{
    let pred = overlaps_pred(from, to);
    let f = rows.filter(pred);
    assert forall|g: int, m: int|
        0 <= g < groups.len() && 0 <= m < groups[g].intervals@.len() implies overlaps(
        #[trigger] groups[g].intervals@[m]@,
        from,
        to,
    ) by {
        let ep = entity_pred(groups[g].entity_id@);
        let x = groups[g].intervals@[m]@;
        assert(intervals_view(groups[g].intervals@) == f.filter(ep));
        assert(f.filter(ep)[m] == x);
        assert(f.filter(ep).contains(x));
        f.lemma_filter_contains_rev(ep, x);
        let k = choose|k: int| 0 <= k < f.len() && f[k] == x;
        rows.lemma_filter_pred(pred, k);
    }
    assert forall|i: int| 0 <= i < rows.len() && overlaps(#[trigger] rows[i], from, to) implies exists|g: int|
        0 <= g < groups.len() && groups[g].entity_id@ == rows[i].entity_id
            && intervals_view(#[trigger] groups[g].intervals@).contains(rows[i]) by {
        rows.lemma_filter_contains(pred, i);
        let k = choose|k: int| 0 <= k < f.len() && f[k] == rows[i];
        assert(has_group(groups, f[k].entity_id));
        let g = choose|g: int| 0 <= g < groups.len() && #[trigger] groups[g].entity_id@ == f[k].entity_id;
        let ep = entity_pred(groups[g].entity_id@);
        f.lemma_filter_contains(ep, k);
        assert(intervals_view(groups[g].intervals@) == f.filter(ep));
    }
}

/// Whether the date and time library can represent Unix timestamp `t`.
pub uninterp spec fn representable_timestamp(t: i64) -> bool;

/// Relies on `time::OffsetDateTime::from_unix_timestamp`: it accepts exactly
/// the timestamps of its range of dates, which spans at least the years -9999
/// to 9999 (the wider range of its `large-dates` feature contains that one).
#[verifier::external_body]
fn timestamp_is_representable(t: i64) -> (r: bool)
    ensures
        r == representable_timestamp(t),
        -377705116800 <= t <= 253402300799 ==> r,
{
    time::OffsetDateTime::from_unix_timestamp(t).is_ok()
}

/// Whether both times of a stored interval can be represented.
pub open spec fn valid_times(r: IntervalValue) -> bool {
    representable_timestamp(r.start_time) && match r.end_time {
        Some(t) => representable_timestamp(t),
        None => true,
    }
}

/// The first time of a stored interval that cannot be represented.
pub open spec fn bad_time(r: IntervalValue) -> i64 {
    if !representable_timestamp(r.start_time) {
        r.start_time
    } else {
        r.end_time->0
    }
}

/// Whether the intervals of `s` come by ascending start time.
pub open spec fn ascending_starts(s: Seq<IntervalValue>) -> bool {
    forall|i: int, j: int| 0 <= i < j < s.len() ==> #[trigger] s[i].start_time <= #[trigger] s[j].start_time
}

/// Sorts intervals by start time; intervals that start together keep their order.
pub fn sort_by_start(v: Vec<HistoryInterval>) -> (r: Vec<HistoryInterval>)
    ensures
        intervals_view(r@).to_multiset() == intervals_view(v@).to_multiset(),
        ascending_starts(intervals_view(r@)),
{
    broadcast use vstd::seq_lib::to_multiset_build, vstd::seq_lib::to_multiset_insert;

    let ghost v0 = v@;
    let n0 = v.len();
    let ghost vals = intervals_view(v0);
    let mut rest = v;
    let mut out: Vec<HistoryInterval> = Vec::new();
    let mut k: usize = 0;
    assert(vals.take(0).to_multiset() =~= intervals_view(out@).to_multiset()) by {
        assert(vals.take(0) =~= intervals_view(out@));
    }
    while rest.len() > 0
        invariant
            rest@ == v0.subrange(k as int, v0.len() as int),
            k <= v0.len(),
            n0 == v0.len(),
            vals == intervals_view(v0),
            intervals_view(out@).to_multiset() == vals.take(k as int).to_multiset(),
            ascending_starts(intervals_view(out@)),
        decreases rest@.len(),
    {
        let x = rest.remove(0);
        assert(x == v0[k as int]);
        let ghost ov = intervals_view(out@);
        let mut p: usize = 0;
        while p < out.len() && out[p].start_time <= x.start_time
            invariant
                p <= out@.len(),
                ov == intervals_view(out@),
                forall|m: int| 0 <= m < p ==> #[trigger] out@[m].start_time <= x.start_time,
            decreases out@.len() - p,
        {
            p += 1;
        }
        let ghost before = out@;
        out.insert(p, x);
        proof {
            assert(intervals_view(out@) =~= ov.insert(p as int, x@));
            assert(vals.take(k as int + 1) =~= vals.take(k as int).push(x@));
            vstd::seq_lib::to_multiset_insert(ov, p as int, x@);
            vstd::seq_lib::to_multiset_build(vals.take(k as int), x@);
            let nv = intervals_view(out@);
            assert forall|i: int, j: int| 0 <= i < j < nv.len() implies #[trigger] nv[i].start_time
                <= #[trigger] nv[j].start_time by {
                if p < before.len() {
                    assert(ov[p as int].start_time > x.start_time);
                }
                if i < p && j == p {
                    assert(nv[i] == ov[i]);
                } else if i == p && j > p {
                    assert(nv[j] == ov[j - 1]);
                    assert(ov[p as int].start_time <= ov[j - 1].start_time || j - 1 == p);
                } else if i < p && j > p {
                    assert(nv[i] == ov[i] && nv[j] == ov[j - 1]);
                } else if j < p {
                    assert(nv[i] == ov[i] && nv[j] == ov[j]);
                } else {
                    assert(nv[i] == ov[i - 1] && nv[j] == ov[j - 1]);
                }
            }
        }
        k += 1;
    }
    assert(vals.take(v0.len() as int) =~= vals);
    out
}

/// Whether `groups` holds the intervals of `rows` grouped by entity: one group
/// for each entity that occurs, each with exactly that entity's intervals (as a
/// multiset), by ascending start time.
pub open spec fn grouped_by_start(rows: Seq<IntervalValue>, groups: Seq<EntityHistory>) -> bool {
    &&& forall|g: int|
        0 <= g < groups.len() ==> intervals_view(#[trigger] groups[g].intervals@).to_multiset()
            == rows.filter(entity_pred(groups[g].entity_id@)).to_multiset()
    &&& forall|g: int|
        0 <= g < groups.len() ==> ascending_starts(intervals_view(#[trigger] groups[g].intervals@))
    &&& forall|g: int| 0 <= g < groups.len() ==> #[trigger] groups[g].intervals@.len() > 0
    &&& forall|g: int, h: int|
        0 <= g < groups.len() && 0 <= h < groups.len() && g != h ==> #[trigger] groups[g].entity_id@
            != #[trigger] groups[h].entity_id@
    &&& forall|m: int| 0 <= m < rows.len() ==> #[trigger] has_group(groups, rows[m].entity_id)
}

/// Sorts each group's intervals by start time.
pub fn sort_groups(groups: Vec<EntityHistory>) -> (r: Vec<EntityHistory>)
    ensures
        forall|rows: Seq<IntervalValue>| grouped(rows, groups@) ==> #[trigger] grouped_by_start(rows, r@),
{
    broadcast use vstd::seq_lib::to_multiset_len;

    let ghost g0 = groups@;
    let n0 = groups.len();
    let mut rest = groups;
    let mut out: Vec<EntityHistory> = Vec::new();
    let mut k: usize = 0;
    while rest.len() > 0
        invariant
            rest@ == g0.subrange(k as int, g0.len() as int),
            k <= g0.len(),
            n0 == g0.len(),
            out@.len() == k,
            forall|i: int|
                0 <= i < k ==> (#[trigger] out@[i]).entity_id == g0[i].entity_id
                    && intervals_view(out@[i].intervals@).to_multiset() == intervals_view(
                    g0[i].intervals@,
                ).to_multiset() && ascending_starts(intervals_view(out@[i].intervals@)),
        decreases rest@.len(),
    {
        let g = rest.remove(0);
        assert(g == g0[k as int]);
        let sorted = sort_by_start(g.intervals);
        out.push(EntityHistory { entity_id: g.entity_id, intervals: sorted });
        k += 1;
    }
    assert forall|rows: Seq<IntervalValue>| grouped(rows, g0) implies #[trigger] grouped_by_start(rows, out@) by {
        assert forall|i: int| 0 <= i < out@.len() implies #[trigger] out@[i].intervals@.len() > 0 by {
            assert(g0[i].intervals@.len() > 0);
            assert(intervals_view(g0[i].intervals@).len() > 0);
            assert(intervals_view(out@[i].intervals@).to_multiset().len() > 0);
        }
        assert forall|i: int, j: int|
            0 <= i < out@.len() && 0 <= j < out@.len() && i != j implies #[trigger] out@[i].entity_id@
            != #[trigger] out@[j].entity_id@ by {
            assert(out@[i].entity_id == g0[i].entity_id && out@[j].entity_id == g0[j].entity_id);
        }
        assert forall|m: int| 0 <= m < rows.len() implies #[trigger] has_group(out@, rows[m].entity_id) by {
            assert(has_group(g0, rows[m].entity_id));
            let h = choose|h: int| 0 <= h < g0.len() && #[trigger] g0[h].entity_id@ == rows[m].entity_id;
            assert(out@[h].entity_id == g0[h].entity_id);
        }
        assert forall|i: int| 0 <= i < out@.len() implies intervals_view(#[trigger] out@[i].intervals@).to_multiset()
            == rows.filter(entity_pred(out@[i].entity_id@)).to_multiset() by {
            assert(out@[i].entity_id == g0[i].entity_id);
            assert(intervals_view(g0[i].intervals@) == rows.filter(entity_pred(g0[i].entity_id@)));
        }
    }
    out
}

/// Why stored intervals could not be read back.
#[derive(Debug)]
pub enum GetStatusError {
    /// An interval of `entity_id` holds `timestamp`, which cannot be represented.
    InvalidData { entity_id: String, timestamp: i64 },
}

/// Whether both times of an interval lie in the years -9999 to 9999.
pub open spec fn times_in_range(r: IntervalValue) -> bool {
    &&& -377705116800 <= r.start_time <= 253402300799
    &&& match r.end_time {
        Some(t) => -377705116800 <= t <= 253402300799,
        None => true,
    }
}

/// Reads back intervals from storage: checks that each of their times can be
/// represented (the first interval with one that cannot gives the error), and
/// groups by entity those that overlap the window from `from` to `to`, each
/// entity's by ascending start time.
pub fn group_stored_rows(rows: Vec<HistoryInterval>, from: i64, to: i64) -> (r: Result<Vec<EntityHistory>, GetStatusError>)
    ensures
        r is Ok <==> forall|i: int| 0 <= i < rows@.len() ==> valid_times(#[trigger] rows@[i]@),
        (forall|i: int| 0 <= i < rows@.len() ==> times_in_range(#[trigger] rows@[i]@)) ==> r is Ok,
        r matches Ok(g) ==> grouped_by_start(intervals_view(rows@).filter(overlaps_pred(from, to)), g@),
        r matches Err(GetStatusError::InvalidData { entity_id, timestamp }) ==> exists|k: int|
            0 <= k < rows@.len() && !valid_times(#[trigger] rows@[k]@) && (forall|m: int|
                0 <= m < k ==> valid_times(#[trigger] rows@[m]@)) && entity_id@ == rows@[k].entity_id@
                && timestamp == bad_time(rows@[k]@),
{
    let mut i: usize = 0;
    while i < rows.len()
        invariant
            i <= rows@.len(),
            forall|m: int| 0 <= m < i ==> valid_times(#[trigger] rows@[m]@),
        decreases rows@.len() - i,
    {
        let row = &rows[i];
        if !timestamp_is_representable(row.start_time) {
            assert(!valid_times(rows@[i as int]@));
            assert(!times_in_range(rows@[i as int]@));
            return Err(GetStatusError::InvalidData { entity_id: row.entity_id.clone(), timestamp: row.start_time });
        }
        if let Some(end) = row.end_time {
            if !timestamp_is_representable(end) {
                assert(!valid_times(rows@[i as int]@));
                assert(!times_in_range(rows@[i as int]@));
                return Err(GetStatusError::InvalidData { entity_id: row.entity_id.clone(), timestamp: end });
            }
        }
        i += 1;
    }
    let selected = select_overlapping(&rows, from, to);
    let groups = group_by_entity(selected);
    let sorted = sort_groups(groups);
    Ok(sorted)
}

} // verus!
