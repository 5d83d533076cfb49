use vstd::prelude::*;

use crate::types::StatusEntry;

verus! {

/// The values of a sequence, in order.
pub open spec fn values_of<T: View>(s: Seq<T>) -> Seq<T::V> {
    s.map_values(|x: T| x@)
}

/// `x` placed in the sorted `s` before the first element that does not come
/// before it.
pub open spec fn insert_sorted<T: StatusEntry>(x: T::V, s: Seq<T::V>) -> Seq<T::V>
    decreases s.len(),
{
    if s.len() == 0 {
        seq![x]
    } else if !T::before(s[0], x) {
        seq![x] + s
    } else {
        seq![s[0]] + insert_sorted::<T>(x, s.drop_first())
    }
}

/// `s` sorted in the order of `T::before`, by insertion.
pub open spec fn sorted_values<T: StatusEntry>(s: Seq<T::V>) -> Seq<T::V>
    decreases s.len(),
{
    if s.len() == 0 {
        s
    } else {
        insert_sorted::<T>(s.last(), sorted_values::<T>(s.drop_last()))
    }
}

/// Inserting `x` adds it to the values, as a multiset.
proof fn lemma_insert_sorted_multiset<T: StatusEntry>(x: T::V, s: Seq<T::V>)
    ensures
        insert_sorted::<T>(x, s).to_multiset() == s.to_multiset().insert(x),
    decreases s.len(),
{
    broadcast use vstd::seq_lib::to_multiset_insert, vstd::multiset::group_multiset_axioms;

    if s.len() == 0 {
        assert(seq![x] =~= s.insert(0, x));
    } else if !T::before(s[0], x) {
        assert(seq![x] + s =~= s.insert(0, x));
    } else {
        let t = s.drop_first();
        lemma_insert_sorted_multiset::<T>(x, t);
        assert(seq![s[0]] + insert_sorted::<T>(x, t) =~= insert_sorted::<T>(x, t).insert(0, s[0]));
        assert(s =~= t.insert(0, s[0]));
        assert(insert_sorted::<T>(x, s).to_multiset() =~= s.to_multiset().insert(x));
    }
}

/// Sorting keeps the values: `sorted_values(s)` holds those of `s`, as a
/// multiset.
pub proof fn lemma_sorted_values_permutation<T: StatusEntry>(s: Seq<T::V>)
    ensures
        sorted_values::<T>(s).to_multiset() == s.to_multiset(),
    decreases s.len(),
{
    broadcast use vstd::seq_lib::to_multiset_build;

    if s.len() > 0 {
        lemma_sorted_values_permutation::<T>(s.drop_last());
        lemma_insert_sorted_multiset::<T>(s.last(), sorted_values::<T>(s.drop_last()));
        assert(s =~= s.drop_last().push(s.last()));
    }
}

/// Whether no value of `s` comes before a value ahead of it.
pub open spec fn sorted_by<T: StatusEntry>(s: Seq<T::V>) -> bool {
    forall|i: int, j: int| 0 <= i < j < s.len() ==> !T::before(#[trigger] s[j], #[trigger] s[i])
}

/// A value that comes before another does not come after it.
proof fn lemma_before_asymmetric<T: StatusEntry>(a: T::V, b: T::V)
    requires
        T::before(a, b),
    ensures
        !T::before(b, a),
{
    T::lemma_before_order(a, b, a);
}

/// Not coming before is transitive.
proof fn lemma_not_before_transitive<T: StatusEntry>(a: T::V, b: T::V, c: T::V)
    requires
        !T::before(a, b),
        !T::before(b, c),
    ensures
        !T::before(a, c),
{
    T::lemma_before_order(a, b, c);
    T::lemma_before_order(b, c, a);
    T::lemma_before_order(b, a, c);
}

/// Inserting into a sorted sequence keeps it sorted.
proof fn lemma_insert_sorted_sorted<T: StatusEntry>(x: T::V, s: Seq<T::V>)
    requires
        sorted_by::<T>(s),
    ensures
        sorted_by::<T>(insert_sorted::<T>(x, s)),
    decreases s.len(),
{
    broadcast use vstd::seq_lib::to_multiset_contains, vstd::multiset::group_multiset_axioms;

    if s.len() == 0 {
    } else if !T::before(s[0], x) {
        let r = seq![x] + s;
        assert forall|i: int, j: int| 0 <= i < j < r.len() implies !T::before(
            #[trigger] r[j],
            #[trigger] r[i],
        ) by {
            if i == 0 {
                assert(r[j] == s[j - 1]);
                if j - 1 > 0 {
                    lemma_not_before_transitive::<T>(s[j - 1], s[0], x);
                }
            } else {
                assert(r[i] == s[i - 1] && r[j] == s[j - 1]);
            }
        }
    } else {
        let t = s.drop_first();
        assert(sorted_by::<T>(t)) by {
            assert forall|i: int, j: int| 0 <= i < j < t.len() implies !T::before(
                #[trigger] t[j],
                #[trigger] t[i],
            ) by {
                assert(t[i] == s[i + 1] && t[j] == s[j + 1]);
            }
        }
        lemma_insert_sorted_sorted::<T>(x, t);
        lemma_insert_sorted_multiset::<T>(x, t);
        let inner = insert_sorted::<T>(x, t);
        let r = seq![s[0]] + inner;
        assert forall|i: int, j: int| 0 <= i < j < r.len() implies !T::before(
            #[trigger] r[j],
            #[trigger] r[i],
        ) by {
            if i == 0 {
                let y = inner[j - 1];
                assert(r[j] == y);
                assert(inner.contains(y));
                assert(inner.to_multiset().count(y) > 0);
                if y == x {
                    lemma_before_asymmetric::<T>(s[0], x);
                } else {
                    assert(t.to_multiset().count(y) > 0);
                    assert(t.contains(y));
                    let m = choose|m: int| 0 <= m < t.len() && t[m] == y;
                    assert(s[m + 1] == y);
                }
            } else {
                assert(r[i] == inner[i - 1] && r[j] == inner[j - 1]);
            }
        }
    }
}

/// `sorted_values(s)` is sorted: no value in it comes before a value ahead of it.
pub proof fn lemma_sorted_values_sorted<T: StatusEntry>(s: Seq<T::V>)
    ensures
        sorted_by::<T>(sorted_values::<T>(s)),
    decreases s.len(),
{
    if s.len() > 0 {
        lemma_sorted_values_sorted::<T>(s.drop_last());
        lemma_insert_sorted_sorted::<T>(s.last(), sorted_values::<T>(s.drop_last()));
    }
}

/// Placing `x` at the first position whose element does not come before it is
/// `insert_sorted`.
proof fn lemma_insert_at<T: StatusEntry>(x: T::V, s: Seq<T::V>, p: int)
    requires
        0 <= p <= s.len(),
        forall|m: int| 0 <= m < p ==> T::before(#[trigger] s[m], x),
        p == s.len() || !T::before(s[p], x),
    ensures
        s.insert(p, x) == insert_sorted::<T>(x, s),
    decreases s.len(),
{
    if s.len() == 0 {
        assert(s.insert(p, x) =~= seq![x]);
    } else if p == 0 {
        assert(s.insert(p, x) =~= seq![x] + s);
    } else {
        let t = s.drop_first();
        assert forall|m: int| 0 <= m < p - 1 implies T::before(#[trigger] t[m], x) by {
            assert(t[m] == s[m + 1]);
        }
        lemma_insert_at::<T>(x, t, p - 1);
        assert(s.insert(p, x) =~= seq![s[0]] + t.insert(p - 1, x));
    }
}

/// Sorts `v` in the order of `T::before`; equal entries keep no particular order,
/// which their values cannot show.
pub fn sort_entries<T: StatusEntry>(v: Vec<T>) -> (r: Vec<T>)
    ensures
        values_of(r@) == sorted_values::<T>(values_of(v@)),
        sorted_by::<T>(values_of(r@)),
        values_of(r@).to_multiset() == values_of(v@).to_multiset(),
{
    proof {
        lemma_sorted_values_sorted::<T>(values_of(v@));
        lemma_sorted_values_permutation::<T>(values_of(v@));
    }
    let ghost v0 = v@;
    let n0 = v.len();
    let ghost vals = values_of(v0);
    let mut rest = v;
    let mut out: Vec<T> = Vec::new();
    let mut k: usize = 0;
    while rest.len() > 0
        invariant
            rest@ == v0.subrange(k as int, v0.len() as int),
            k <= v0.len(),
            n0 == v0.len(),
            vals == values_of(v0),
            values_of(out@) == sorted_values::<T>(vals.take(k as int)),
        decreases rest@.len(),
    {
        let x = rest.remove(0);
        assert(x == v0[k as int]);
        let mut p: usize = 0;
        while p < out.len() && out[p].is_before(&x)
            invariant
                p <= out@.len(),
                forall|m: int| 0 <= m < p ==> T::before(#[trigger] out@[m]@, x@),
            decreases out@.len() - p,
        {
            p += 1;
        }
        let ghost before = out@;
        proof {
            let s = values_of(before);
            assert forall|m: int| 0 <= m < p implies T::before(#[trigger] s[m], x@) by {
                assert(s[m] == before[m]@);
            }
            if p < before.len() {
                assert(s[p as int] == before[p as int]@);
            }
            lemma_insert_at::<T>(x@, s, p as int);
            assert(vals.take(k as int + 1).drop_last() =~= vals.take(k as int));
            assert(vals.take(k as int + 1).last() == x@);
        }
        out.insert(p, x);
        assert(values_of(out@) =~= values_of(before).insert(p as int, x@));
        k += 1;
    }
    assert(vals.take(v0.len() as int) =~= vals);
    out
}

/// A list of entries that held over one stretch of time.
#[derive(Debug)]
pub struct Span<T> {
    pub entries: Vec<T>,
    /// Unix seconds.
    pub from: i64,
    /// Unix seconds; absent while the span is still current.
    pub to: Option<i64>,
}

/// The value of a [`Span`].
pub struct SpanValue<V> {
    pub entries: Seq<V>,
    pub from: i64,
    pub to: Option<i64>,
}

impl<T: View> View for Span<T> {
    type V = SpanValue<T::V>;

    open spec fn view(&self) -> SpanValue<T::V> {
        SpanValue { entries: values_of(self.entries@), from: self.from, to: self.to }
    }
}

/// `s` with each run of adjacent spans whose entries are equal to those of the
/// run's first span merged into one span, from the first span's start to the
/// last span's end.
pub open spec fn merged<V>(s: Seq<SpanValue<V>>) -> Seq<SpanValue<V>>
    decreases s.len(),
{
    if s.len() == 0 {
        s
    } else {
        let m = merged(s.drop_last());
        let x = s.last();
        if m.len() > 0 && m.last().entries == x.entries {
            m.update(
                m.len() - 1,
                SpanValue { entries: m.last().entries, from: m.last().from, to: x.to },
            )
        } else {
            m.push(x)
        }
    }
}

/// Whether the two lists hold equal entries.
fn same_entries<T: StatusEntry>(a: &Vec<T>, b: &Vec<T>) -> (r: bool)
    ensures
        r == (values_of(a@) == values_of(b@)),
{
    if a.len() != b.len() {
        assert(values_of(a@).len() != values_of(b@).len());
        return false;
    }
    let mut i: usize = 0;
    while i < a.len()
        invariant
            i <= a@.len(),
            a@.len() == b@.len(),
            forall|m: int| 0 <= m < i ==> #[trigger] a@[m]@ == b@[m]@,
        decreases a@.len() - i,
    {
        if !a[i].same(&b[i]) {
            assert(values_of(a@)[i as int] != values_of(b@)[i as int]);
            return false;
        }
        i += 1;
    }
    assert(values_of(a@) =~= values_of(b@));
    true
}

/// Merges each run of adjacent spans with equal entries into one span.
pub fn merge_runs<T: StatusEntry>(spans: Vec<Span<T>>) -> (r: Vec<Span<T>>)
    ensures
        values_of(r@) == merged(values_of(spans@)),
{
    let ghost s0 = spans@;
    let n0 = spans.len();
    let ghost vals = values_of(s0);
    let mut rest = spans;
    let mut out: Vec<Span<T>> = Vec::new();
    let mut k: usize = 0;
    while rest.len() > 0
        invariant
            rest@ == s0.subrange(k as int, s0.len() as int),
            k <= s0.len(),
            n0 == s0.len(),
            vals == values_of(s0),
            values_of(out@) == merged(vals.take(k as int)),
        decreases rest@.len(),
    {
        let x = rest.remove(0);
        let ghost before = out@;
        proof {
            assert(x == s0[k as int]);
            assert(vals.take(k as int + 1).drop_last() =~= vals.take(k as int));
            assert(vals.take(k as int + 1).last() == x@);
        }
        let n = out.len();
        if n > 0 && same_entries(&out[n - 1].entries, &x.entries) {
            out[n - 1].to = x.to;
            assert(values_of(out@) =~= values_of(before).update(
                n - 1,
                SpanValue {
                    entries: values_of(before)[n - 1].entries,
                    from: values_of(before)[n - 1].from,
                    to: x.to,
                },
            ));
        } else {
            out.push(x);
            assert(values_of(out@) =~= values_of(before).push(x@));
        }
        k += 1;
    }
    assert(vals.take(s0.len() as int) =~= vals);
    out
}

/// A run of adjacent spans whose entries all equal the first span's merges into
/// one span, from the first span's start to the last span's end.
pub proof fn lemma_equal_run_merges<V>(s: Seq<SpanValue<V>>)
    requires
        s.len() > 0,
        forall|i: int| 0 <= i < s.len() ==> #[trigger] s[i].entries == s[0].entries,
    ensures
        merged(s) == seq![SpanValue { entries: s[0].entries, from: s[0].from, to: s.last().to }],
    decreases s.len(),
{
    if s.len() == 1 {
        let m = merged(s.drop_last());
        assert(s.drop_last().len() == 0);
        assert(m.len() == 0);
        assert(merged(s) == m.push(s.last()));
        assert(merged(s) =~= seq![SpanValue { entries: s[0].entries, from: s[0].from, to: s.last().to }]);
    } else {
        let t = s.drop_last();
        assert forall|i: int| 0 <= i < t.len() implies #[trigger] t[i].entries == t[0].entries by {
            assert(t[i] == s[i]);
        }
        lemma_equal_run_merges(t);
        assert(s.last().entries == s[0].entries);
        assert(merged(s) =~= seq![SpanValue { entries: s[0].entries, from: s[0].from, to: s.last().to }]);
    }
}

/// The last span of `merged(s)` has the entries of the last span of `s`.
pub proof fn lemma_merged_last_entries<V>(s: Seq<SpanValue<V>>)
    requires
        s.len() > 0,
    ensures
        merged(s).len() > 0,
        merged(s).last().entries == s.last().entries,
{
}

/// A span whose entries differ from those of the span before it starts a new
/// span of its own.
pub proof fn lemma_differing_span_starts_new<V>(s: Seq<SpanValue<V>>, x: SpanValue<V>)
    requires
        s.len() == 0 || s.last().entries != x.entries,
    ensures
        merged(s.push(x)) == merged(s).push(x),
{
    assert(s.push(x).drop_last() =~= s);
    if s.len() > 0 {
        lemma_merged_last_entries(s);
    }
}

/// A run of adjacent spans whose entries all equal the run's first, after spans
/// whose last one has other entries (or after none), merges into one span, from
/// the run's first start to its last end, placed after what the spans before
/// it merge into.
pub proof fn lemma_run_merges_after<V>(p: Seq<SpanValue<V>>, run: Seq<SpanValue<V>>)
    requires
        run.len() > 0,
        forall|i: int| 0 <= i < run.len() ==> #[trigger] run[i].entries == run[0].entries,
        p.len() == 0 || p.last().entries != run[0].entries,
    ensures
        merged(p + run) == merged(p).push(
            SpanValue { entries: run[0].entries, from: run[0].from, to: run.last().to },
        ),
    decreases run.len(),
{
    if run.len() == 1 {
        assert(p + run =~= p.push(run[0]));
        lemma_differing_span_starts_new(p, run[0]);
    } else {
        let r2 = run.drop_last();
        assert forall|i: int| 0 <= i < r2.len() implies #[trigger] r2[i].entries == r2[0].entries by {
            assert(r2[i] == run[i]);
        }
        lemma_run_merges_after(p, r2);
        assert((p + run).drop_last() =~= p + r2);
        assert((p + run).last() == run.last());
        assert(run.last().entries == run[0].entries);
        assert(merged(p + run) =~= merged(p).push(
            SpanValue { entries: run[0].entries, from: run[0].from, to: run.last().to },
        ));
    }
}

/// Spans that follow spans whose last one has other entries than their first
/// merge on their own: `merged(s + t)` is `merged(s)` followed by `merged(t)`.
pub proof fn lemma_merged_concat<V>(s: Seq<SpanValue<V>>, t: Seq<SpanValue<V>>)
    requires
        s.len() == 0 || t.len() == 0 || s.last().entries != t[0].entries,
    ensures
        merged(s + t) == merged(s) + merged(t),
    decreases t.len(),
{
    if t.len() == 0 {
        assert(s + t =~= s);
        assert(merged(t) =~= Seq::<SpanValue<V>>::empty());
        assert(merged(s) + merged(t) =~= merged(s));
    } else if t.len() == 1 {
        assert(s + t =~= s.push(t[0]));
        lemma_differing_span_starts_new(s, t[0]);
        assert(t.drop_last() =~= Seq::<SpanValue<V>>::empty());
        assert(merged(t.drop_last()).len() == 0);
        assert(t.last() == t[0]);
        assert(merged(t) =~= seq![t[0]]);
        assert(merged(s).push(t[0]) =~= merged(s) + seq![t[0]]);
    } else {
        let t2 = t.drop_last();
        lemma_merged_concat(s, t2);
        assert((s + t).drop_last() =~= s + t2);
        assert((s + t).last() == t.last());
        lemma_merged_last_entries(t2);
        let a = merged(s);
        let b = merged(t2);
        assert(merged(s + t2) == a + b);
        assert((a + b).last() == b.last());
        if b.last().entries == t.last().entries {
            assert((a + b).update(a.len() + b.len() - 1, SpanValue { entries: b.last().entries, from: b.last().from, to: t.last().to })
                =~= a + b.update(b.len() - 1, SpanValue { entries: b.last().entries, from: b.last().from, to: t.last().to }));
        } else {
            assert((a + b).push(t.last()) =~= a + b.push(t.last()));
        }
    }
}

/// A run of adjacent spans with equal entries, between spans with other entries
/// (or at either end), merges into exactly one span, from the run's first start
/// to its last end, between what the spans before it and after it merge into.
pub proof fn lemma_run_merges_between<V>(
    p: Seq<SpanValue<V>>,
    run: Seq<SpanValue<V>>,
    q: Seq<SpanValue<V>>,
)
    requires
        run.len() > 0,
        forall|i: int| 0 <= i < run.len() ==> #[trigger] run[i].entries == run[0].entries,
        p.len() == 0 || p.last().entries != run[0].entries,
        q.len() == 0 || q[0].entries != run[0].entries,
    ensures
        merged(p + run + q) == merged(p).push(
            SpanValue { entries: run[0].entries, from: run[0].from, to: run.last().to },
        ) + merged(q),
{
    lemma_run_merges_after(p, run);
    assert((p + run).last() == run.last());
    assert(run.last().entries == run[0].entries);
    lemma_merged_concat(p + run, q);
}

} // verus!
