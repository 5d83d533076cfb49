use vstd::prelude::*;

use crate::change::{
    changed, ignored_fields, ignored_fields_spec, lemma_unchanged_reflexive, materially_changed,
    strings_view, well_formed,
};
use crate::document::{DocValue, Document};

verus! {

/// One stretch of time during which an entity held one document.
#[derive(Debug)]
pub struct HistoryInterval {
    pub entity_id: String,
    /// Unix seconds.
    pub start_time: i64,
    /// Unix seconds; absent while the interval is still open.
    pub end_time: Option<i64>,
    pub data: Document,
}

/// The value of a [`HistoryInterval`].
pub struct IntervalValue {
    pub entity_id: Seq<char>,
    pub start_time: i64,
    pub end_time: Option<i64>,
    pub data: DocValue,
}

impl View for HistoryInterval {
    type V = IntervalValue;

    open spec fn view(&self) -> IntervalValue {
        IntervalValue {
            entity_id: self.entity_id@,
            start_time: self.start_time,
            end_time: self.end_time,
            data: self.data@,
        }
    }
}

/// The values of a sequence of intervals, in order.
pub open spec fn intervals_view(s: Seq<HistoryInterval>) -> Seq<IntervalValue> {
    s.map_values(|r: HistoryInterval| r@)
}

impl HistoryInterval {
    /// A copy of the interval.
    pub fn duplicate(&self) -> (r: HistoryInterval)
        ensures
            r@ == self@,
    {
        HistoryInterval {
            entity_id: self.entity_id.clone(),
            start_time: self.start_time,
            end_time: self.end_time,
            data: self.data.duplicate(),
        }
    }
}

/// The two kinds of tracked entity.
#[derive(Clone, Copy, Debug, PartialEq, Eq, Structural)]
pub enum Family {
    /// Lines always report some status.
    Lines,
    /// Stations report records only while disrupted, and may vanish from a snapshot.
    Stations,
}

/// Whether interval `a`, if it is of the same entity as `b`, has ended by the
/// time `b` starts.
pub open spec fn precedes(a: IntervalValue, b: IntervalValue) -> bool {
    a.entity_id == b.entity_id ==> (a.end_time is Some && a.end_time->0 <= b.start_time)
}

/// Whether each entity's intervals follow one another in time, without
/// overlapping: each one has ended by the time the entity's next one starts.
pub open spec fn chronological(s: Seq<IntervalValue>) -> bool {
    forall|i: int, j: int| 0 <= i < j < s.len() ==> precedes(#[trigger] s[i], #[trigger] s[j])
}

/// Whether an interval that has ended did so no earlier than it started.
pub open spec fn proper(r: IntervalValue) -> bool {
    match r.end_time {
        Some(e) => r.start_time <= e,
        None => true,
    }
}

/// Whether every interval of `s` is proper.
pub open spec fn all_proper(s: Seq<IntervalValue>) -> bool {
    forall|i: int| 0 <= i < s.len() ==> proper(#[trigger] s[i])
}

/// Whether no time in `s` is later than `t`.
pub open spec fn not_after(s: Seq<IntervalValue>, t: i64) -> bool {
    forall|i: int|
        0 <= i < s.len() ==> #[trigger] s[i].start_time <= t && match s[i].end_time {
            Some(e) => e <= t,
            None => true,
        }
}

/// Whether the intervals of `s` are in time order: proper, chronological, and
/// (for those of one entity) by ascending start time.
pub open spec fn in_time_order(s: Seq<IntervalValue>) -> bool {
    &&& all_proper(s)
    &&& chronological(s)
    &&& forall|i: int, j: int|
        0 <= i < j < s.len() && s[i].entity_id == s[j].entity_id ==> #[trigger] s[i].start_time
            <= #[trigger] s[j].start_time
}

/// Proper, chronological intervals are in time order.
pub proof fn lemma_in_time_order(s: Seq<IntervalValue>)
    requires
        all_proper(s),
        chronological(s),
    ensures
        in_time_order(s),
{
    assert forall|i: int, j: int|
        0 <= i < j < s.len() && s[i].entity_id == s[j].entity_id implies #[trigger] s[i].start_time
        <= #[trigger] s[j].start_time by {
        assert(precedes(s[i], s[j]));
        assert(proper(s[i]));
    }
}

/// Filtering keeps intervals proper and chronological.
pub proof fn lemma_filter_keeps_order(s: Seq<IntervalValue>, pred: spec_fn(IntervalValue) -> bool)
    requires
        all_proper(s),
        chronological(s),
    ensures
        all_proper(s.filter(pred)),
        chronological(s.filter(pred)),
    decreases s.len(),
{
    reveal(Seq::filter);
    if s.len() > 0 {
        let t = s.drop_last();
        assert(all_proper(t)) by {
            assert forall|i: int| 0 <= i < t.len() implies proper(#[trigger] t[i]) by {
                assert(t[i] == s[i]);
            }
        }
        assert(chronological(t)) by {
            assert forall|i: int, j: int| 0 <= i < j < t.len() implies precedes(
                #[trigger] t[i],
                #[trigger] t[j],
            ) by {
                assert(t[i] == s[i] && t[j] == s[j]);
            }
        }
        lemma_filter_keeps_order(t, pred);
        let ft = t.filter(pred);
        if pred(s.last()) {
            let fs = s.filter(pred);
            assert(fs == ft.push(s.last()));
            assert forall|i: int| 0 <= i < ft.len() implies precedes(#[trigger] ft[i], s.last()) by {
                assert(ft.contains(ft[i]));
                t.lemma_filter_contains_rev(pred, ft[i]);
                let k = choose|k: int| 0 <= k < t.len() && t[k] == ft[i];
                assert(s[k] == t[k]);
                assert(s[s.len() - 1] == s.last());
            }
            assert forall|i: int, j: int| 0 <= i < j < fs.len() implies precedes(
                #[trigger] fs[i],
                #[trigger] fs[j],
            ) by {
                assert(fs[i] == ft[i]);
                if j < ft.len() {
                    assert(fs[j] == ft[j]);
                }
            }
            assert forall|i: int| 0 <= i < fs.len() implies proper(#[trigger] fs[i]) by {
                if i < ft.len() {
                    assert(fs[i] == ft[i]);
                } else {
                    assert(proper(s[s.len() - 1]));
                }
            }
        }
    }
}

/// Whether the snapshot holds a document for entity `e`.
pub open spec fn entity_in(snap: Seq<(String, Document)>, e: Seq<char>) -> bool {
    exists|k: int| 0 <= k < snap.len() && #[trigger] snap[k].0@ == e
}

/// Whether no entity occurs twice in the snapshot.
pub open spec fn unique_entities(snap: Seq<(String, Document)>) -> bool {
    forall|k: int, m: int|
        0 <= k < snap.len() && 0 <= m < snap.len() && k != m ==> #[trigger] snap[k].0@
            != #[trigger] snap[m].0@
}

/// Whether each entity has at most one open interval.
pub open spec fn at_most_one_open(rows: Seq<HistoryInterval>) -> bool {
    forall|i: int, j: int|
        0 <= i < rows.len() && 0 <= j < rows.len() && i != j && rows[i].end_time is None
            && rows[j].end_time is None ==> #[trigger] rows[i].entity_id@
            != #[trigger] rows[j].entity_id@
}

/// Whether the snapshot holds, for the entity of `r`, a document that does not
/// differ materially from the one of `r`.
pub open spec fn kept_by(r: HistoryInterval, snap: Seq<(String, Document)>, ign: Seq<Seq<char>>) -> bool {
    exists|k: int|
        0 <= k < snap.len() && #[trigger] snap[k].0@ == r.entity_id@ && !changed(
            r.data@,
            snap[k].1@,
            ign,
        )
}

/// Whether a transition to `snap` closes row `r`: it is open, and its entity
/// either holds a materially different document or, for stations, is gone.
pub open spec fn closes(
    r: HistoryInterval,
    snap: Seq<(String, Document)>,
    family: Family,
    ign: Seq<Seq<char>>,
) -> bool {
    &&& r.end_time is None
    &&& if entity_in(snap, r.entity_id@) {
        !kept_by(r, snap, ign)
    } else {
        family is Stations
    }
}

/// Whether `rows` holds an open interval for entity `e` whose document does not
/// differ materially from `d`.
pub open spec fn has_unchanged_open(
    rows: Seq<HistoryInterval>,
    e: Seq<char>,
    d: DocValue,
    ign: Seq<Seq<char>>,
) -> bool {
    exists|i: int|
        0 <= i < rows.len() && rows[i].end_time is None && #[trigger] rows[i].entity_id@ == e
            && !changed(rows[i].data@, d, ign)
}

/// Whether a transition opens a new interval for the snapshot entry `p`.
pub open spec fn opens(rows: Seq<HistoryInterval>, p: (String, Document), ign: Seq<Seq<char>>) -> bool {
    !has_unchanged_open(rows, p.0@, p.1@, ign)
}

/// The interval that a snapshot entry opens at time `now`.
pub open spec fn opened_interval(p: (String, Document), now: i64) -> HistoryInterval {
    HistoryInterval { entity_id: p.0, start_time: now, end_time: None, data: p.1 }
}

/// Row `r` as a transition leaves it.
pub open spec fn after_transition(
    r: HistoryInterval,
    snap: Seq<(String, Document)>,
    family: Family,
    now: i64,
    ign: Seq<Seq<char>>,
) -> HistoryInterval {
    if closes(r, snap, family, ign) {
        HistoryInterval {
            entity_id: r.entity_id,
            start_time: r.start_time,
            end_time: Some(now),
            data: r.data,
        }
    } else {
        r
    }
}

/// The test of `opens` against `rows`, as a predicate on snapshot entries.
pub open spec fn opens_pred(rows: Seq<HistoryInterval>, ign: Seq<Seq<char>>) -> spec_fn(
    (String, Document),
) -> bool {
    |p: (String, Document)| opens(rows, p, ign)
}

/// The snapshot entries for which a transition opens a new interval, in order.
pub open spec fn opened_entries(
    rows: Seq<HistoryInterval>,
    snap: Seq<(String, Document)>,
    ign: Seq<Seq<char>>,
) -> Seq<(String, Document)> {
    snap.filter(opens_pred(rows, ign))
}

/// Whether `new` is what a transition of `old` to snapshot `snap` at time `now`
/// gives: every row stays in place, closed at `now` where it `closes`, and the
/// intervals that the snapshot opens follow, in snapshot order.
pub open spec fn transitioned(
    old: Seq<HistoryInterval>,
    new: Seq<HistoryInterval>,
    snap: Seq<(String, Document)>,
    family: Family,
    now: i64,
    ign: Seq<Seq<char>>,
) -> bool {
    &&& new.len() == old.len() + opened_entries(old, snap, ign).len()
    &&& forall|i: int|
        0 <= i < old.len() ==> #[trigger] new[i] == after_transition(old[i], snap, family, now, ign)
    &&& forall|m: int|
        0 <= m < opened_entries(old, snap, ign).len() ==> #[trigger] new[old.len() + m]
            == opened_interval(opened_entries(old, snap, ign)[m], now)
}

/// Filtering keeps the entities of a snapshot distinct.
proof fn lemma_filter_unique(s: Seq<(String, Document)>, pred: spec_fn((String, Document)) -> bool)
    requires
        unique_entities(s),
    ensures
        unique_entities(s.filter(pred)),
    decreases s.len(),
{
    reveal(Seq::filter);
    if s.len() > 0 {
        let t = s.drop_last();
        assert(unique_entities(t)) by {
            assert forall|k: int, m: int|
                0 <= k < t.len() && 0 <= m < t.len() && k != m implies #[trigger] t[k].0@
                != #[trigger] t[m].0@ by {
                assert(t[k] == s[k] && t[m] == s[m]);
            }
        }
        lemma_filter_unique(t, pred);
        let ft = t.filter(pred);
        if pred(s.last()) {
            assert forall|m: int| 0 <= m < ft.len() implies #[trigger] ft[m].0@ != s.last().0@ by {
                assert(ft.contains(ft[m]));
                t.lemma_filter_contains_rev(pred, ft[m]);
                let k = choose|k: int| 0 <= k < t.len() && t[k] == ft[m];
                assert(s[k] == t[k]);
                assert(s[s.len() - 1] == s.last());
            }
            let fs = s.filter(pred);
            assert(fs == ft.push(s.last()));
            assert forall|k: int, m: int|
                0 <= k < fs.len() && 0 <= m < fs.len() && k != m implies #[trigger] fs[k].0@
                != #[trigger] fs[m].0@ by {
                if k < ft.len() && m < ft.len() {
                    assert(fs[k] == ft[k] && fs[m] == ft[m]);
                } else if k < ft.len() {
                    assert(fs[k] == ft[k] && fs[m] == s.last());
                } else {
                    assert(fs[m] == ft[m] && fs[k] == s.last());
                }
            }
        }
    }
}

/// A transition leaves each entity with at most one open interval, when the
/// history had at most one open interval per entity and the snapshot names each
/// entity once.
pub proof fn lemma_transition_keeps_one_open(
    old: Seq<HistoryInterval>,
    new: Seq<HistoryInterval>,
    snap: Seq<(String, Document)>,
    family: Family,
    now: i64,
    ign: Seq<Seq<char>>,
)
    requires
        at_most_one_open(old),
        unique_entities(snap),
        transitioned(old, new, snap, family, now, ign),
    ensures
        at_most_one_open(new),
{
    let pred = opens_pred(old, ign);
    let f = opened_entries(old, snap, ign);
    lemma_filter_unique(snap, pred);
    assert forall|i: int, j: int|
        0 <= i < new.len() && 0 <= j < new.len() && i != j && new[i].end_time is None
            && new[j].end_time is None implies #[trigger] new[i].entity_id@
        != #[trigger] new[j].entity_id@ by {
        if i < old.len() && j < old.len() {
            assert(new[i] == after_transition(old[i], snap, family, now, ign));
            assert(new[j] == after_transition(old[j], snap, family, now, ign));
        } else if i < old.len() {
            lemma_open_row_blocks_opening(old, new, snap, family, now, ign, i, j - old.len());
        } else if j < old.len() {
            lemma_open_row_blocks_opening(old, new, snap, family, now, ign, j, i - old.len());
        } else {
            assert(new[old.len() + (i - old.len())] == opened_interval(f[i - old.len()], now));
            assert(new[old.len() + (j - old.len())] == opened_interval(f[j - old.len()], now));
        }
    }
}

/// A transition at a time no earlier than any time in the history keeps the
/// intervals proper and chronological, and leaves no time later than `now`.
pub proof fn lemma_transition_keeps_order(
    old: Seq<HistoryInterval>,
    new: Seq<HistoryInterval>,
    snap: Seq<(String, Document)>,
    family: Family,
    now: i64,
    ign: Seq<Seq<char>>,
)
    requires
        at_most_one_open(old),
        all_proper(intervals_view(old)),
        chronological(intervals_view(old)),
        not_after(intervals_view(old), now),
        unique_entities(snap),
        transitioned(old, new, snap, family, now, ign),
    ensures
        all_proper(intervals_view(new)),
        chronological(intervals_view(new)),
        not_after(intervals_view(new), now),
{
    let ov = intervals_view(old);
    let nv = intervals_view(new);
    let pred = opens_pred(old, ign);
    let f = opened_entries(old, snap, ign);
    lemma_filter_unique(snap, pred);
    assert forall|i: int| 0 <= i < nv.len() implies proper(#[trigger] nv[i]) && nv[i].start_time
        <= now && match nv[i].end_time {
        Some(e) => e <= now,
        None => true,
    } by {
        assert(nv[i] == new[i]@);
        if i < old.len() {
            assert(new[i] == after_transition(old[i], snap, family, now, ign));
            assert(ov[i] == old[i]@);
            assert(ov[i].start_time <= now);
            assert(proper(ov[i]));
        } else {
            assert(new[old.len() + (i - old.len())] == opened_interval(f[i - old.len()], now));
        }
    }
    assert forall|i: int, j: int| 0 <= i < j < nv.len() implies precedes(
        #[trigger] nv[i],
        #[trigger] nv[j],
    ) by {
        if j < old.len() {
            assert(new[i] == after_transition(old[i], snap, family, now, ign));
            assert(new[j] == after_transition(old[j], snap, family, now, ign));
            assert(ov[i] == old[i]@ && ov[j] == old[j]@);
            assert(precedes(ov[i], ov[j]));
        } else if i < old.len() {
            assert(new[i] == after_transition(old[i], snap, family, now, ign));
            assert(ov[i] == old[i]@);
            assert(new[old.len() + (j - old.len())] == opened_interval(f[j - old.len()], now));
            if nv[i].entity_id == nv[j].entity_id && new[i].end_time is None {
                lemma_open_row_blocks_opening(old, new, snap, family, now, ign, i, j - old.len());
            }
        } else {
            assert(new[old.len() + (i - old.len())] == opened_interval(f[i - old.len()], now));
            assert(new[old.len() + (j - old.len())] == opened_interval(f[j - old.len()], now));
        }
    }
}

/// An old interval that a transition leaves open has no newly opened interval
/// for the same entity beside it.
proof fn lemma_open_row_blocks_opening(
    old: Seq<HistoryInterval>,
    new: Seq<HistoryInterval>,
    snap: Seq<(String, Document)>,
    family: Family,
    now: i64,
    ign: Seq<Seq<char>>,
    i: int,
    m: int,
)
    requires
        unique_entities(snap),
        transitioned(old, new, snap, family, now, ign),
        0 <= i < old.len(),
        0 <= m < opened_entries(old, snap, ign).len(),
        new[i].end_time is None,
    ensures
        new[i].entity_id@ != new[old.len() + m].entity_id@,
{
    let pred = opens_pred(old, ign);
    let f = opened_entries(old, snap, ign);
    let p = f[m];
    assert(new[old.len() + m] == opened_interval(p, now));
    assert(new[i] == after_transition(old[i], snap, family, now, ign));
    assert(!closes(old[i], snap, family, ign));
    if p.0@ == old[i].entity_id@ {
        assert(f.contains(p));
        snap.lemma_filter_contains_rev(pred, p);
        snap.lemma_filter_pred(pred, m);
        let k = choose|k: int| 0 <= k < snap.len() && snap[k] == p;
        assert(entity_in(snap, old[i].entity_id@));
        assert(kept_by(old[i], snap, ign));
        let k2 = choose|k2: int|
            0 <= k2 < snap.len() && #[trigger] snap[k2].0@ == old[i].entity_id@ && !changed(
                old[i].data@,
                snap[k2].1@,
                ign,
            );
        assert(k2 == k);
        assert(has_unchanged_open(old, p.0@, p.1@, ign));
    }
}

/// Whether some entry of `snap` has the entity of row `r`, and whether one such
/// entry holds a document that has not materially changed from r's.
fn scan_snapshot(r: &HistoryInterval, snap: &Vec<(String, Document)>, ignored: &Vec<String>) -> (res: (bool, bool))
    ensures
        res.0 == entity_in(snap@, r.entity_id@),
        res.1 == kept_by(*r, snap@, strings_view(ignored@)),
{
    let mut present = false;
    let mut kept = false;
    let mut k: usize = 0;
    while k < snap.len()
        invariant
            k <= snap@.len(),
            present == exists|m: int| 0 <= m < k && #[trigger] snap@[m].0@ == r.entity_id@,
            kept == exists|m: int|
                0 <= m < k && #[trigger] snap@[m].0@ == r.entity_id@ && !changed(
                    r.data@,
                    snap@[m].1@,
                    strings_view(ignored@),
                ),
        decreases snap@.len() - k,
    {
        if snap[k].0 == r.entity_id {
            present = true;
            if !kept && !materially_changed(&r.data, &snap[k].1, ignored) {
                kept = true;
            }
        }
        k += 1;
    }
    (present, kept)
}

/// Whether `rows` holds an open interval for `e` whose document has not
/// materially changed from `d`.
fn find_unchanged_open(
    rows: &Vec<HistoryInterval>,
    e: &String,
    d: &Document,
    ignored: &Vec<String>,
) -> (r: bool)
    ensures
        r == has_unchanged_open(rows@, e@, d@, strings_view(ignored@)),
{
    let mut i: usize = 0;
    while i < rows.len()
        invariant
            i <= rows@.len(),
            forall|m: int|
                0 <= m < i && rows@[m].end_time is None && #[trigger] rows@[m].entity_id@ == e@
                    ==> changed(rows@[m].data@, d@, strings_view(ignored@)),
        decreases rows@.len() - i,
    {
        if rows[i].end_time.is_none() && rows[i].entity_id == *e && !materially_changed(
            &rows[i].data,
            d,
            ignored,
        ) {
            return true;
        }
        i += 1;
    }
    false
}

/// The first interval of `rows`, if any, that is not proper or that has not
/// ended by the time a later interval of its entity starts.
pub fn check_order(rows: &Vec<HistoryInterval>) -> (r: Option<usize>)
    ensures
        r is None <==> all_proper(intervals_view(rows@)) && chronological(intervals_view(rows@)),
        r matches Some(i) ==> i < rows@.len() && (!proper(rows@[i as int]@) || exists|j: int|
            i < j < rows@.len() && !precedes(rows@[i as int]@, #[trigger] rows@[j]@)),
{
    let ghost v = intervals_view(rows@);
    let mut i: usize = 0;
    while i < rows.len()
        invariant
            i <= rows@.len(),
            v == intervals_view(rows@),
            forall|a: int| 0 <= a < i ==> proper(#[trigger] v[a]),
            forall|a: int, b: int| 0 <= a < i && a < b < v.len() ==> precedes(#[trigger] v[a], #[trigger] v[b]),
        decreases rows@.len() - i,
    {
        let row = &rows[i];
        assert(v[i as int] == row@);
        let ok = match row.end_time {
            Some(e) => row.start_time <= e,
            None => true,
        };
        if !ok {
            return Some(i);
        }
        let mut j: usize = i + 1;
        while j < rows.len()
            invariant
                i < j <= rows@.len(),
                v == intervals_view(rows@),
                v[i as int] == rows@[i as int]@,
                forall|b: int| i < b < j ==> precedes(v[i as int], #[trigger] v[b]),
            decreases rows@.len() - j,
        {
            assert(v[j as int] == rows@[j as int]@);
            if rows[j].entity_id == rows[i].entity_id {
                let ends_first = match rows[i].end_time {
                    Some(e) => e <= rows[j].start_time,
                    None => false,
                };
                if !ends_first {
                    assert(!precedes(rows@[i as int]@, rows@[j as int]@));
                    return Some(i);
                }
            }
            j += 1;
        }
        i += 1;
    }
    None
}

/// Relies on `time::OffsetDateTime::now_utc` and `unix_timestamp`: the current
/// time in Unix seconds. Nothing is promised of its value.
#[verifier::external_body]
fn now_unix_seconds() -> (r: i64) {
    time::OffsetDateTime::now_utc().unix_timestamp()
}

/// The time at which to record a transition: the clock's reading, or the latest
/// time already recorded if the clock is behind it.
pub fn transition_time(clock: i64, latest: i64) -> (r: i64)
    ensures
        r == if clock < latest {
            latest
        } else {
            clock
        },
{
    if clock < latest {
        latest
    } else {
        clock
    }
}

/// The history of one family's entities, held in memory: every interval ever
/// opened, in the order in which it was opened.
pub struct MemoryStore {
    rows: Vec<HistoryInterval>,
}

impl View for MemoryStore {
    type V = Seq<HistoryInterval>;

    closed spec fn view(&self) -> Seq<HistoryInterval> {
        self.rows@
    }
}

impl MemoryStore {
    /// Whether each entity has at most one open interval, and its intervals are
    /// proper and follow one another in time.
    pub open spec fn wf(&self) -> bool {
        &&& at_most_one_open(self@)
        &&& all_proper(intervals_view(self@))
        &&& chronological(intervals_view(self@))
    }

    /// An empty store.
    pub fn new() -> (s: Self)
        ensures
            s@ == Seq::<HistoryInterval>::empty(),
            s.wf(),
    {
        let s = MemoryStore { rows: Vec::new() };
        assert(s@ =~= Seq::<HistoryInterval>::empty());
        s
    }

    /// A store that holds `rows`, if no entity has two open intervals among them
    /// and each entity's intervals are proper and follow one another in time.
    pub fn from_rows(rows: Vec<HistoryInterval>) -> (r: Option<Self>)
        ensures
            r is Some <==> at_most_one_open(rows@) && all_proper(intervals_view(rows@))
                && chronological(intervals_view(rows@)),
            r matches Some(s) ==> s@ == rows@ && s.wf(),
    {
        if check_order(&rows).is_some() {
            return None;
        }
        let mut i: usize = 0;
        while i < rows.len()
            invariant
                i <= rows@.len(),
                forall|a: int, b: int|
                    0 <= a < i && 0 <= b < rows@.len() && a != b && rows@[a].end_time is None
                        && rows@[b].end_time is None ==> #[trigger] rows@[a].entity_id@
                        != #[trigger] rows@[b].entity_id@,
            decreases rows@.len() - i,
        {
            if rows[i].end_time.is_none() {
                let mut j: usize = 0;
                while j < rows.len()
                    invariant
                        i < rows@.len(),
                        j <= rows@.len(),
                        rows@[i as int].end_time is None,
                        forall|b: int|
                            0 <= b < j && b != i && rows@[b].end_time is None ==> rows@[i as int].entity_id@
                                != #[trigger] rows@[b].entity_id@,
                    decreases rows@.len() - j,
                {
                    if j != i && rows[j].end_time.is_none() && rows[j].entity_id == rows[i].entity_id {
                        return None;
                    }
                    j += 1;
                }
            }
            i += 1;
        }
        let s = MemoryStore { rows };
        Some(s)
    }

    /// The latest start or end time in the store; `i64::MIN` for an empty one.
    pub fn latest_time(&self) -> (r: i64)
        ensures
            not_after(intervals_view(self@), r),
            self@.len() == 0 ==> r == i64::MIN,
            self@.len() > 0 ==> exists|i: int|
                0 <= i < self@.len() && (#[trigger] self@[i].start_time == r || self@[i].end_time
                    == Some(r)),
    {
        let ghost v = intervals_view(self.rows@);
        let mut latest: i64 = i64::MIN;
        let ghost mut w: int = 0;
        let mut i: usize = 0;
        while i < self.rows.len()
            invariant
                i <= self.rows@.len(),
                v == intervals_view(self.rows@),
                not_after(v.take(i as int), latest),
                i == 0 ==> latest == i64::MIN,
                i > 0 ==> 0 <= w < i && (self.rows@[w].start_time == latest
                    || self.rows@[w].end_time == Some(latest)),
            decreases self.rows@.len() - i,
        {
            let row = &self.rows[i];
            let ghost old_latest = latest;
            proof {
                if i == 0 {
                    w = 0;
                }
            }
            if row.start_time > latest {
                latest = row.start_time;
                proof {
                    w = i as int;
                }
            }
            if let Some(e) = row.end_time {
                if e > latest {
                    latest = e;
                    proof {
                        w = i as int;
                    }
                }
            }
            assert(v[i as int] == row@);
            assert(not_after(v.take(i as int + 1), latest)) by {
                assert forall|k: int| 0 <= k < i + 1 implies #[trigger] v.take(i as int + 1)[k].start_time
                    <= latest && match v.take(i as int + 1)[k].end_time {
                    Some(e) => e <= latest,
                    None => true,
                } by {
                    if k < i {
                        assert(v.take(i as int + 1)[k] == v.take(i as int)[k]);
                        assert(v.take(i as int)[k].start_time <= old_latest);
                        assert(old_latest <= latest);
                    } else {
                        assert(v.take(i as int + 1)[k] == v[i as int]);
                    }
                }
            }
            i += 1;
        }
        assert(v.take(self.rows@.len() as int) =~= v);
        proof {
            if self.rows@.len() > 0 {
                assert(self@[w] == self.rows@[w]);
                assert(self@[w].start_time == latest || self@[w].end_time == Some(latest));
            }
        }
        latest
    }

    /// Every interval in the store, in the order in which they were opened.
    pub fn rows(&self) -> (r: &Vec<HistoryInterval>)
        ensures
            r@ == self@,
    {
        &self.rows
    }

    /// Brings the store to `snapshot`, taken now, as `set_status_at` does at the
    /// time that the clock reads; a clock behind the latest stored time counts as
    /// that time.
    pub fn set_status(&mut self, snapshot: Vec<(String, Document)>, family: Family)
        requires
            old(self).wf(),
            unique_entities(snapshot@),
        ensures
            exists|now: i64|
                not_after(intervals_view(old(self)@), now) && transitioned(
                    old(self)@,
                    final(self)@,
                    snapshot@,
                    family,
                    now,
                    ignored_fields_spec(),
                ),
            final(self).wf(),
    {
        let clock = now_unix_seconds();
        let latest = self.latest_time();
        let now = transition_time(clock, latest);
        let ghost before = self@;
        let ghost snap = snapshot@;
        self.set_status_at(snapshot, family, now);
        assert(not_after(intervals_view(before), now) && transitioned(
            before,
            self@,
            snap,
            family,
            now,
            ignored_fields_spec(),
        ));
    }

    /// Brings the store to `snapshot`, taken at time `now`, as one step: an
    /// entity whose document changed materially has its open interval closed and
    /// a new one opened; a new entity gets an open interval; an unchanged one is
    /// left alone; and a station that is gone has its open interval closed.
    pub fn set_status_at(&mut self, snapshot: Vec<(String, Document)>, family: Family, now: i64)
        requires
            old(self).wf(),
            unique_entities(snapshot@),
            not_after(intervals_view(old(self)@), now),
        ensures
            transitioned(old(self)@, final(self)@, snapshot@, family, now, ignored_fields_spec()),
            final(self).wf(),
            not_after(intervals_view(final(self)@), now),
    {
        let ignored = ignored_fields();
        let ghost ign = strings_view(ignored@);
        let ghost old_rows = self.rows@;
        let ghost snap0 = snapshot@;
        let ghost pred = opens_pred(old_rows, ign);

        let mut flags: Vec<bool> = Vec::new();
        let mut k: usize = 0;
        while k < snapshot.len()
            invariant
                k <= snapshot@.len(),
                flags@.len() == k,
                self.rows@ == old_rows,
                ign == strings_view(ignored@),
                pred == opens_pred(old_rows, ign),
                forall|m: int| 0 <= m < k ==> flags@[m] == pred(snapshot@[m]),
            decreases snapshot@.len() - k,
        {
            let found = find_unchanged_open(&self.rows, &snapshot[k].0, &snapshot[k].1, &ignored);
            flags.push(!found);
            k += 1;
        }

        let mut i: usize = 0;
        while i < self.rows.len()
            invariant
                i <= self.rows@.len(),
                self.rows@.len() == old_rows.len(),
                ign == strings_view(ignored@),
                ign == ignored_fields_spec(),
                snapshot@ == snap0,
                forall|m: int|
                    0 <= m < i ==> #[trigger] self.rows@[m] == after_transition(
                        old_rows[m],
                        snap0,
                        family,
                        now,
                        ign,
                    ),
                forall|m: int| i <= m < old_rows.len() ==> #[trigger] self.rows@[m] == old_rows[m],
            decreases self.rows@.len() - i,
        {
            if self.rows[i].end_time.is_none() {
                let (present, kept) = scan_snapshot(&self.rows[i], &snapshot, &ignored);
                let close = if present {
                    !kept
                } else {
                    match family {
                        Family::Stations => true,
                        Family::Lines => false,
                    }
                };
                if close {
                    self.rows[i].end_time = Some(now);
                }
            }
            i += 1;
        }

        let mut snap = snapshot;
        let mut k: usize = 0;
        while k < flags.len()
            invariant
                flags@.len() == snap0.len(),
                k <= snap0.len(),
                snap@ == snap0.subrange(k as int, snap0.len() as int),
                pred == opens_pred(old_rows, ign),
                forall|m: int| 0 <= m < snap0.len() ==> flags@[m] == pred(snap0[m]),
                self.rows@.len() == old_rows.len() + snap0.take(k as int).filter(pred).len(),
                forall|m: int|
                    0 <= m < old_rows.len() ==> #[trigger] self.rows@[m] == after_transition(
                        old_rows[m],
                        snap0,
                        family,
                        now,
                        ign,
                    ),
                forall|m: int|
                    0 <= m < snap0.take(k as int).filter(pred).len() ==> #[trigger] self.rows@[old_rows.len()
                        + m] == opened_interval(snap0.take(k as int).filter(pred)[m], now),
            decreases snap0.len() - k,
        {
            let entry = snap.remove(0);
            proof {
                assert(snap0.take(k as int + 1).drop_last() =~= snap0.take(k as int));
                reveal(Seq::filter);
                assert(entry == snap0[k as int]);
            }
            if flags[k] {
                self.rows.push(
                    HistoryInterval { entity_id: entry.0, start_time: now, end_time: None, data: entry.1 },
                );
            }
            k += 1;
        }
        proof {
            assert(snap0.take(snap0.len() as int) =~= snap0);
            lemma_transition_keeps_one_open(old_rows, self.rows@, snap0, family, now, ign);
            lemma_transition_keeps_order(old_rows, self.rows@, snap0, family, now, ign);
        }
    }
}

/// An open interval that the snapshot keeps stays as it is, and the
/// transition opens no interval for its entity.
proof fn lemma_kept_row_stays(
    old: Seq<HistoryInterval>,
    new: Seq<HistoryInterval>,
    snap: Seq<(String, Document)>,
    family: Family,
    now: i64,
    ign: Seq<Seq<char>>,
    i: int,
    k: int,
)
    requires
        unique_entities(snap),
        transitioned(old, new, snap, family, now, ign),
        0 <= i < old.len(),
        old[i].end_time is None,
        0 <= k < snap.len(),
        snap[k].0@ == old[i].entity_id@,
        !changed(old[i].data@, snap[k].1@, ign),
    ensures
        new[i] == old[i],
        forall|m: int| old.len() <= m < new.len() ==> #[trigger] new[m].entity_id@ != old[i].entity_id@,
{
    assert(entity_in(snap, old[i].entity_id@));
    assert(kept_by(old[i], snap, ign));
    assert(new[i] == after_transition(old[i], snap, family, now, ign));
    let pred = opens_pred(old, ign);
    let f = opened_entries(old, snap, ign);
    assert forall|m: int| old.len() <= m < new.len() implies #[trigger] new[m].entity_id@
        != old[i].entity_id@ by {
        let q = m - old.len();
        assert(new[old.len() + q] == opened_interval(f[q], now));
        if f[q].0@ == old[i].entity_id@ {
            assert(f.contains(f[q]));
            snap.lemma_filter_contains_rev(pred, f[q]);
            snap.lemma_filter_pred(pred, q);
            let k2 = choose|k2: int| 0 <= k2 < snap.len() && snap[k2] == f[q];
            assert(k2 == k);
            assert(has_unchanged_open(old, f[q].0@, f[q].1@, ign));
        }
    }
}

/// Feeding the same document for an entity on two consecutive ticks opens no
/// interval for it on the second tick, and leaves its open interval, with its
/// start time, as the first tick left it.
pub proof fn lemma_same_document_twice(
    s0: Seq<HistoryInterval>,
    s1: Seq<HistoryInterval>,
    s2: Seq<HistoryInterval>,
    snap1: Seq<(String, Document)>,
    snap2: Seq<(String, Document)>,
    family: Family,
    t1: i64,
    t2: i64,
    ign: Seq<Seq<char>>,
    k1: int,
    k2: int,
)
    requires
        unique_entities(snap1),
        unique_entities(snap2),
        transitioned(s0, s1, snap1, family, t1, ign),
        transitioned(s1, s2, snap2, family, t2, ign),
        0 <= k1 < snap1.len(),
        0 <= k2 < snap2.len(),
        snap1[k1].0@ == snap2[k2].0@,
        snap1[k1].1@ == snap2[k2].1@,
        well_formed(snap1[k1].1@),
    ensures
        exists|i: int|
            0 <= i < s1.len() && s1[i].end_time is None && s1[i].entity_id@ == snap1[k1].0@
                && #[trigger] s2[i] == s1[i],
        forall|m: int| s1.len() <= m < s2.len() ==> #[trigger] s2[m].entity_id@ != snap1[k1].0@,
{
    let e = snap1[k1].0@;
    let d = snap1[k1].1@;
    let pred = opens_pred(s0, ign);
    let f = opened_entries(s0, snap1, ign);
    let i: int = if pred(snap1[k1]) {
        snap1.lemma_filter_contains(pred, k1);
        let q = choose|q: int| 0 <= q < f.len() && f[q] == snap1[k1];
        assert(s1[s0.len() + q] == opened_interval(f[q], t1));
        lemma_unchanged_reflexive(d, ign);
        s0.len() + q
    } else {
        let i0 = choose|i0: int|
            0 <= i0 < s0.len() && s0[i0].end_time is None && #[trigger] s0[i0].entity_id@ == e
                && !changed(s0[i0].data@, d, ign);
        lemma_kept_row_stays(s0, s1, snap1, family, t1, ign, i0, k1);
        i0
    };
    assert(0 <= i < s1.len() && s1[i].end_time is None && s1[i].entity_id@ == e);
    assert(!changed(s1[i].data@, d, ign));
    lemma_kept_row_stays(s1, s2, snap2, family, t2, ign, i, k2);
}

/// At a tick where a station with an open interval is gone from the snapshot,
/// that interval closes at the tick's time, and no interval is opened for the
/// station.
pub proof fn lemma_station_disappears(
    old: Seq<HistoryInterval>,
    new: Seq<HistoryInterval>,
    snap: Seq<(String, Document)>,
    now: i64,
    ign: Seq<Seq<char>>,
    i: int,
)
    requires
        at_most_one_open(old),
        transitioned(old, new, snap, Family::Stations, now, ign),
        0 <= i < old.len(),
        old[i].end_time is None,
        !entity_in(snap, old[i].entity_id@),
    ensures
        new[i].end_time == Some(now),
        forall|j: int|
            0 <= j < new.len() && #[trigger] new[j].entity_id@ == old[i].entity_id@
                ==> new[j].end_time is Some,
{
    let e = old[i].entity_id@;
    let pred = opens_pred(old, ign);
    let f = opened_entries(old, snap, ign);
    assert(new[i] == after_transition(old[i], snap, Family::Stations, now, ign));
    assert forall|j: int| 0 <= j < new.len() && #[trigger] new[j].entity_id@ == e implies new[j].end_time is Some by {
        if j < old.len() {
            assert(new[j] == after_transition(old[j], snap, Family::Stations, now, ign));
            if j != i && old[j].end_time is None {
                assert(old[j].entity_id@ != old[i].entity_id@);
            }
        } else {
            let q = j - old.len();
            assert(new[old.len() + q] == opened_interval(f[q], now));
            assert(f.contains(f[q]));
            snap.lemma_filter_contains_rev(pred, f[q]);
            let k = choose|k: int| 0 <= k < snap.len() && snap[k] == f[q];
            assert(snap[k].0@ == e);
        }
    }
}

/// At a tick where a line with an open interval is missing from the snapshot,
/// that interval stays open: lines are never closed for being absent.
pub proof fn lemma_line_absence_keeps_open(
    old: Seq<HistoryInterval>,
    new: Seq<HistoryInterval>,
    snap: Seq<(String, Document)>,
    now: i64,
    ign: Seq<Seq<char>>,
    i: int,
)
    requires
        transitioned(old, new, snap, Family::Lines, now, ign),
        0 <= i < old.len(),
        !entity_in(snap, old[i].entity_id@),
    ensures
        new[i] == old[i],
{
    assert(new[i] == after_transition(old[i], snap, Family::Lines, now, ign));
}

/// A transition only appends: every earlier interval keeps its entity, start
/// and document, and one that had ended stays exactly as it was.
pub proof fn lemma_transition_appends_only(
    old: Seq<HistoryInterval>,
    new: Seq<HistoryInterval>,
    snap: Seq<(String, Document)>,
    family: Family,
    now: i64,
    ign: Seq<Seq<char>>,
)
    requires
        transitioned(old, new, snap, family, now, ign),
    ensures
        old.len() <= new.len(),
        forall|i: int|
            0 <= i < old.len() ==> (#[trigger] new[i]).entity_id == old[i].entity_id
                && new[i].start_time == old[i].start_time && new[i].data == old[i].data,
        forall|i: int| 0 <= i < old.len() && old[i].end_time is Some ==> #[trigger] new[i] == old[i],
{
    assert forall|i: int| 0 <= i < old.len() implies (#[trigger] new[i]).entity_id == old[i].entity_id
        && new[i].start_time == old[i].start_time && new[i].data == old[i].data by {
        assert(new[i] == after_transition(old[i], snap, family, now, ign));
    }
    assert forall|i: int| 0 <= i < old.len() && old[i].end_time is Some implies #[trigger] new[i]
        == old[i] by {
        assert(new[i] == after_transition(old[i], snap, family, now, ign));
    }
}

/// When an entity's document changes materially, its open interval ends when
/// the new one starts: both at the transition's time.
pub proof fn lemma_superseded_interval_meets_successor(
    old: Seq<HistoryInterval>,
    new: Seq<HistoryInterval>,
    snap: Seq<(String, Document)>,
    family: Family,
    now: i64,
    ign: Seq<Seq<char>>,
    i: int,
    k: int,
)
    requires
        at_most_one_open(old),
        unique_entities(snap),
        transitioned(old, new, snap, family, now, ign),
        0 <= i < old.len(),
        old[i].end_time is None,
        0 <= k < snap.len(),
        snap[k].0@ == old[i].entity_id@,
        changed(old[i].data@, snap[k].1@, ign),
    ensures
        new[i].end_time == Some(now),
        exists|m: int|
            old.len() <= m < new.len() && #[trigger] new[m] == opened_interval(snap[k], now),
{
    let pred = opens_pred(old, ign);
    let f = opened_entries(old, snap, ign);
    assert(entity_in(snap, old[i].entity_id@));
    assert(!kept_by(old[i], snap, ign)) by {
        if kept_by(old[i], snap, ign) {
            let k2 = choose|k2: int|
                0 <= k2 < snap.len() && #[trigger] snap[k2].0@ == old[i].entity_id@ && !changed(
                    old[i].data@,
                    snap[k2].1@,
                    ign,
                );
            assert(k2 == k);
        }
    }
    assert(new[i] == after_transition(old[i], snap, family, now, ign));
    assert(pred(snap[k])) by {
        if has_unchanged_open(old, snap[k].0@, snap[k].1@, ign) {
            let j = choose|j: int|
                0 <= j < old.len() && old[j].end_time is None && #[trigger] old[j].entity_id@
                    == snap[k].0@ && !changed(old[j].data@, snap[k].1@, ign);
            assert(j == i);
        }
    }
    snap.lemma_filter_contains(pred, k);
    let q = choose|q: int| 0 <= q < f.len() && f[q] == snap[k];
    assert(new[old.len() + q] == opened_interval(f[q], now));
}

/// Whether interval `r` has ended, no later than time `t`.
pub open spec fn ended_by(r: HistoryInterval, t: i64) -> bool {
    match r.end_time {
        Some(x) => x <= t,
        None => false,
    }
}

/// At the tick where a station is gone from the snapshot, every interval of the
/// station has ended, no later than the tick's time, when the history held no
/// time later than the tick's.
pub proof fn lemma_station_gone_by(
    old: Seq<HistoryInterval>,
    new: Seq<HistoryInterval>,
    snap: Seq<(String, Document)>,
    now: i64,
    ign: Seq<Seq<char>>,
    e: Seq<char>,
)
    requires
        not_after(intervals_view(old), now),
        transitioned(old, new, snap, Family::Stations, now, ign),
        !entity_in(snap, e),
    ensures
        forall|j: int|
            0 <= j < new.len() && #[trigger] new[j].entity_id@ == e ==> ended_by(new[j], now),
{
    let pred = opens_pred(old, ign);
    let f = opened_entries(old, snap, ign);
    assert forall|j: int| 0 <= j < new.len() && #[trigger] new[j].entity_id@ == e implies ended_by(new[j], now) by {
        if j < old.len() {
            assert(new[j] == after_transition(old[j], snap, Family::Stations, now, ign));
            assert(intervals_view(old)[j] == old[j]@);
            assert(intervals_view(old)[j].start_time <= now);
        } else {
            let q = j - old.len();
            assert(new[old.len() + q] == opened_interval(f[q], now));
            assert(f.contains(f[q]));
            snap.lemma_filter_contains_rev(pred, f[q]);
            let k = choose|k: int| 0 <= k < snap.len() && snap[k] == f[q];
            assert(snap[k].0@ == e);
        }
    }
}

/// An entity that the snapshot leaves out gets no new interval, so if all its
/// intervals had ended by time `t`, they still have; none of them then overlaps
/// a window that starts after `t`.
pub proof fn lemma_absent_entity_stays_ended(
    old: Seq<HistoryInterval>,
    new: Seq<HistoryInterval>,
    snap: Seq<(String, Document)>,
    family: Family,
    now: i64,
    ign: Seq<Seq<char>>,
    e: Seq<char>,
    t: i64,
)
    requires
        transitioned(old, new, snap, family, now, ign),
        !entity_in(snap, e),
        forall|i: int|
            0 <= i < old.len() && #[trigger] old[i].entity_id@ == e ==> ended_by(old[i], t),
    ensures
        forall|j: int|
            0 <= j < new.len() && #[trigger] new[j].entity_id@ == e ==> ended_by(new[j], t),
        forall|j: int, from: i64, to: i64|
            0 <= j < new.len() && new[j].entity_id@ == e && from > t ==> !#[trigger] crate::query::overlaps(
                new[j]@,
                from,
                to,
            ),
{
    let pred = opens_pred(old, ign);
    let f = opened_entries(old, snap, ign);
    assert forall|j: int| 0 <= j < new.len() && #[trigger] new[j].entity_id@ == e implies ended_by(new[j], t) by {
        if j < old.len() {
            assert(new[j] == after_transition(old[j], snap, family, now, ign));
        } else {
            let q = j - old.len();
            assert(new[old.len() + q] == opened_interval(f[q], now));
            assert(f.contains(f[q]));
            snap.lemma_filter_contains_rev(pred, f[q]);
            let k = choose|k: int| 0 <= k < snap.len() && snap[k] == f[q];
            assert(snap[k].0@ == e);
        }
    }
}

/// Over a run of ticks, `hs[j + 1]` being the history that tick `j` (at time
/// `times[j]`, to snapshot `snaps[j]`) makes of `hs[j]`: a station left out of
/// every snapshot has, in each later history, only intervals that ended by the
/// first tick's time, so it is never open again and no window that starts after
/// that time holds it.
pub proof fn lemma_station_stays_gone(
    hs: Seq<Seq<HistoryInterval>>,
    snaps: Seq<Seq<(String, Document)>>,
    times: Seq<i64>,
    ign: Seq<Seq<char>>,
    e: Seq<char>,
    k: int,
)
    requires
        snaps.len() > 0,
        hs.len() == snaps.len() + 1,
        times.len() == snaps.len(),
        forall|j: int|
            0 <= j < snaps.len() ==> transitioned(
                #[trigger] hs[j],
                hs[j + 1],
                snaps[j],
                Family::Stations,
                times[j],
                ign,
            ),
        not_after(intervals_view(hs[0]), times[0]),
        forall|j: int| 0 <= j < snaps.len() ==> !entity_in(#[trigger] snaps[j], e),
        1 <= k < hs.len(),
    ensures
        forall|i: int|
            0 <= i < hs[k].len() && #[trigger] hs[k][i].entity_id@ == e ==> ended_by(hs[k][i], times[0]),
        forall|i: int, from: i64, to: i64|
            0 <= i < hs[k].len() && hs[k][i].entity_id@ == e && from > times[0]
                ==> !#[trigger] crate::query::overlaps(hs[k][i]@, from, to),
    decreases k,
{
    if k == 1 {
        assert(transitioned(hs[0], hs[1], snaps[0], Family::Stations, times[0], ign));
        assert(!entity_in(snaps[0], e));
        lemma_station_gone_by(hs[0], hs[1], snaps[0], times[0], ign, e);
    } else {
        lemma_station_stays_gone(hs, snaps, times, ign, e, k - 1);
        assert(transitioned(hs[k - 1], hs[k], snaps[k - 1], Family::Stations, times[k - 1], ign));
        assert(!entity_in(snaps[k - 1], e));
        lemma_absent_entity_stays_ended(
            hs[k - 1],
            hs[k],
            snaps[k - 1],
            Family::Stations,
            times[k - 1],
            ign,
            e,
            times[0],
        );
    }
}

} // verus!
