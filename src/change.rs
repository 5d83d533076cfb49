use vstd::prelude::*;

use crate::document::{docs_values, entries_values, group_doc_values, DocValue, Document};

verus! {

broadcast use vstd::std_specs::vec::axiom_vec_index_decreases, vstd::seq::axiom_seq_index_decreases,
    group_doc_values;

/// Whether object `o` holds an entry under key `k`.
pub open spec fn has_key(o: Seq<(Seq<char>, DocValue)>, k: Seq<char>) -> bool {
    exists|j: int| 0 <= j < o.len() && o[j].0 == k
}

/// Whether `new` differs materially from `old`, leaving out every object entry
/// whose key is in `ignored`.
///
/// Objects differ when one holds a kept key that the other lacks, or when the
/// values under a shared kept key differ; arrays differ in length or in some
/// position; any other pair of values differs unless equal.
pub open spec fn changed(old: DocValue, new: DocValue, ignored: Seq<Seq<char>>) -> bool
    decreases old, 0nat,
{
    if old is Object && new is Object {
        let o = old->Object_0;
        let n = new->Object_0;
        key_dropped(o, n, ignored) || key_dropped(n, o, ignored) || values_changed(
            o,
            n,
            ignored,
            o.len(),
        )
    } else if old is Array && new is Array {
        let a = old->Array_0;
        let b = new->Array_0;
        a.len() != b.len() || items_changed(a, b, ignored, a.len())
    } else {
        old != new
    }
}

/// Whether `o` holds a kept key that `n` lacks.
pub open spec fn key_dropped(
    o: Seq<(Seq<char>, DocValue)>,
    n: Seq<(Seq<char>, DocValue)>,
    ignored: Seq<Seq<char>>,
) -> bool {
    exists|i: int| 0 <= i < o.len() && !ignored.contains(#[trigger] o[i].0) && !has_key(n, o[i].0)
}

/// Whether one of the first `k` positions of `a` holds a value changed in `b`.
pub open spec fn items_changed(a: Seq<DocValue>, b: Seq<DocValue>, ignored: Seq<Seq<char>>, k: nat) -> bool
    decreases a, k,
{
    if k == 0 || k > a.len() {
        false
    } else {
        items_changed(a, b, ignored, (k - 1) as nat) || changed(a[k - 1], b[k - 1], ignored)
    }
}

/// Whether one of the first `k` entries of `o` has a kept key under which `n`
/// holds a changed value.
pub open spec fn values_changed(
    o: Seq<(Seq<char>, DocValue)>,
    n: Seq<(Seq<char>, DocValue)>,
    ignored: Seq<Seq<char>>,
    k: nat,
) -> bool
    decreases o, k,
{
    if k == 0 || k > o.len() {
        false
    } else {
        values_changed(o, n, ignored, (k - 1) as nat) || (!ignored.contains(o[k - 1].0)
            && value_changed_in(o[k - 1].1, o[k - 1].0, n, ignored, n.len()))
    }
}

/// Whether one of the first `m` entries of `n` has key `key` and a value changed
/// from `v`.
pub open spec fn value_changed_in(
    v: DocValue,
    key: Seq<char>,
    n: Seq<(Seq<char>, DocValue)>,
    ignored: Seq<Seq<char>>,
    m: nat,
) -> bool
    decreases v, m,
{
    if m == 0 || m > n.len() {
        false
    } else {
        value_changed_in(v, key, n, ignored, (m - 1) as nat) || (n[m - 1].0 == key && changed(
            v,
            n[m - 1].1,
            ignored,
        ))
    }
}

/// The views of a list of strings.
pub open spec fn strings_view(v: Seq<String>) -> Seq<Seq<char>> {
    Seq::new(v.len(), |i: int| v[i]@)
}

/// Whether `key` is one of `ignored`.
fn is_ignored_key(ignored: &Vec<String>, key: &String) -> (r: bool)
    ensures
        r == strings_view(ignored@).contains(key@),
{
    let mut t: usize = 0;
    while t < ignored.len()
        invariant
            t <= ignored@.len(),
            forall|u: int| 0 <= u < t ==> ignored@[u]@ != key@,
        decreases ignored@.len() - t,
    {
        if ignored[t] == *key {
            assert(strings_view(ignored@)[t as int] == key@);
            return true;
        }
        t += 1;
    }
    false
}

/// Whether `o` holds a key, not in `ignored`, that `n` lacks.
fn keys_dropped(o: &Vec<(String, Document)>, n: &Vec<(String, Document)>, ignored: &Vec<String>) -> (r: bool)
    ensures
        r == key_dropped(entries_values(o@), entries_values(n@), strings_view(ignored@)),
{
    let ghost ov = entries_values(o@);
    let ghost nv = entries_values(n@);
    let ghost ign = strings_view(ignored@);
    let mut i: usize = 0;
    while i < o.len()
        invariant
            i <= o@.len(),
            ov == entries_values(o@),
            nv == entries_values(n@),
            ign == strings_view(ignored@),
            forall|k: int| 0 <= k < i && !ign.contains(#[trigger] ov[k].0) ==> has_key(nv, ov[k].0),
        decreases o@.len() - i,
    {
        if !is_ignored_key(ignored, &o[i].0) {
            let mut j: usize = 0;
            let mut found = false;
            while j < n.len() && !found
                invariant
                    i < o@.len(),
                    j <= n@.len(),
                    ov == entries_values(o@),
                    nv == entries_values(n@),
                    found ==> has_key(nv, ov[i as int].0),
                    !found ==> forall|m: int| 0 <= m < j ==> nv[m].0 != ov[i as int].0,
                decreases n@.len() - j,
            {
                assert(nv[j as int] == (n@[j as int].0@, n@[j as int].1@));
                assert(ov[i as int] == (o@[i as int].0@, o@[i as int].1@));
                if n[j].0 == o[i].0 {
                    found = true;
                }
                j += 1;
            }
            if !found {
                assert(!has_key(nv, ov[i as int].0));
                return true;
            }
        }
        i += 1;
    }
    false
}

/// Decides whether `new` differs materially from `old`, leaving out the object
/// entries whose keys are in `ignored`.
pub fn materially_changed(old: &Document, new: &Document, ignored: &Vec<String>) -> (r: bool)
    ensures
        r == changed(old@, new@, strings_view(ignored@)),
    decreases old,
{
    let ghost ign = strings_view(ignored@);
    match (old, new) {
        (Document::Object(o), Document::Object(n)) => {
            assert(old@ == DocValue::Object(entries_values(o@)));
            assert(new@ == DocValue::Object(entries_values(n@)));
            let ghost ov = entries_values(o@);
            let ghost nv = entries_values(n@);
            if keys_dropped(o, n, ignored) || keys_dropped(n, o, ignored) {
                return true;
            }
            let mut acc = false;
            let mut i: usize = 0;
            while i < o.len()
                invariant
                    *old == Document::Object(*o),
                    *new == Document::Object(*n),
                    i <= o@.len(),
                    ov == entries_values(o@),
                    nv == entries_values(n@),
                    ign == strings_view(ignored@),
                    acc == values_changed(ov, nv, ign, i as nat),
                decreases o@.len() - i,
            {
                assert(ov[i as int] == (o@[i as int].0@, o@[i as int].1@));
                if !acc && !is_ignored_key(ignored, &o[i].0) {
                    let mut found = false;
                    let mut j: usize = 0;
                    while j < n.len()
                        invariant
                            *old == Document::Object(*o),
                            i < o@.len(),
                            j <= n@.len(),
                            ov == entries_values(o@),
                            nv == entries_values(n@),
                            ign == strings_view(ignored@),
                            found == value_changed_in(ov[i as int].1, ov[i as int].0, nv, ign, j as nat),
                        decreases n@.len() - j,
                    {
                        assert(nv[j as int] == (n@[j as int].0@, n@[j as int].1@));
                        assert(ov[i as int] == (o@[i as int].0@, o@[i as int].1@));
                        if !found && n[j].0 == o[i].0 {
                            proof {
                                assert(decreases_to!(*old => (*old)->Object_0));
                                assert(decreases_to!(*o => o@[i as int]));
                                assert(decreases_to!(o@[i as int] => o@[i as int].1));
                            }
                            found = materially_changed(&o[i].1, &n[j].1, ignored);
                        }
                        j += 1;
                    }
                    acc = found;
                }
                i += 1;
            }
            acc
        },
        (Document::Array(a), Document::Array(b)) => {
            assert(old@ == DocValue::Array(docs_values(a@)));
            assert(new@ == DocValue::Array(docs_values(b@)));
            let ghost av = docs_values(a@);
            let ghost bv = docs_values(b@);
            if a.len() != b.len() {
                return true;
            }
            let mut acc = false;
            let mut i: usize = 0;
            while i < a.len()
                invariant
                    *old == Document::Array(*a),
                    i <= a@.len(),
                    a@.len() == b@.len(),
                    av == docs_values(a@),
                    bv == docs_values(b@),
                    ign == strings_view(ignored@),
                    acc == items_changed(av, bv, ign, i as nat),
                decreases a@.len() - i,
            {
                assert(av[i as int] == a@[i as int]@);
                assert(bv[i as int] == b@[i as int]@);
                if !acc {
                    proof {
                        assert(decreases_to!(*old => (*old)->Array_0));
                        assert(decreases_to!(*a => a@[i as int]));
                    }
                    acc = materially_changed(&a[i], &b[i], ignored);
                }
                i += 1;
            }
            acc
        },
        (Document::Null, Document::Null) => false,
        (Document::Bool(x), Document::Bool(y)) => {
            assert(old@ == DocValue::Bool(*x) && new@ == DocValue::Bool(*y));
            *x != *y
        },
        (Document::Number(x), Document::Number(y)) => {
            assert(old@ == DocValue::Number(*x) && new@ == DocValue::Number(*y));
            *x != *y
        },
        (Document::Text(x), Document::Text(y)) => {
            assert(old@ == DocValue::Text(x@));
            !(*x == *y)
        },
        _ => {
            assert(old@ != new@);
            true
        },
    }
}

} // verus!

verus! {

/// The keys that the feed stamps anew on each poll, and that never make a
/// change by themselves.
pub open spec fn ignored_fields_spec() -> Seq<Seq<char>> {
    seq!["validityPeriods"@, "created"@]
}

/// The keys that the feed stamps anew on each poll.
pub fn ignored_fields() -> (r: Vec<String>)
    ensures
        strings_view(r@) == ignored_fields_spec(),
{
    broadcast use vstd::string::to_string_from_display_ensures_for_str;

    let mut r: Vec<String> = Vec::new();
    r.push("validityPeriods".to_string());
    r.push("created".to_string());
    proof {
        reveal_strlit("validityPeriods");
        reveal_strlit("created");
    }
    assert(strings_view(r@) =~= ignored_fields_spec());
    r
}

/// Whether a line's new status document differs materially from the stored one.
pub fn should_update_line(old: &Document, new: &Document) -> (r: bool)
    ensures
        r == changed(old@, new@, ignored_fields_spec()),
{
    let ignored = ignored_fields();
    materially_changed(old, new, &ignored)
}

/// Whether a station's new list of disruption records differs materially from the
/// stored one; the records are compared position by position.
pub fn should_update_station(old: &Vec<Document>, new: &Vec<Document>) -> (r: bool)
    ensures
        r == changed(
            DocValue::Array(docs_values(old@)),
            DocValue::Array(docs_values(new@)),
            ignored_fields_spec(),
        ),
{
    let ignored = ignored_fields();
    let ghost ign = strings_view(ignored@);
    let ghost av = docs_values(old@);
    let ghost bv = docs_values(new@);
    if old.len() != new.len() {
        return true;
    }
    let mut acc = false;
    let mut i: usize = 0;
    while i < old.len()
        invariant
            i <= old@.len(),
            old@.len() == new@.len(),
            av == docs_values(old@),
            bv == docs_values(new@),
            ign == strings_view(ignored@),
            ign == ignored_fields_spec(),
            acc == items_changed(av, bv, ign, i as nat),
        decreases old@.len() - i,
    {
        assert(av[i as int] == old@[i as int]@);
        assert(bv[i as int] == new@[i as int]@);
        if !acc {
            acc = materially_changed(&old[i], &new[i], &ignored);
        }
        i += 1;
    }
    acc
}

} // verus!

verus! {

/// Whether no key occurs twice among the entries of an object.
pub open spec fn unique_keys(o: Seq<(Seq<char>, DocValue)>) -> bool {
    forall|i: int, j: int|
        0 <= i < o.len() && 0 <= j < o.len() && i != j ==> #[trigger] o[i].0 != #[trigger] o[j].0
}

/// Whether every object within the document holds each key once, as the
/// documents that the feed's decoder builds do.
pub open spec fn well_formed(d: DocValue) -> bool
    decreases d, 0nat,
{
    if d is Object {
        unique_keys(d->Object_0) && entries_well_formed(d->Object_0, d->Object_0.len())
    } else if d is Array {
        items_well_formed(d->Array_0, d->Array_0.len())
    } else {
        true
    }
}

/// Whether the first `k` items of `s` are well formed.
pub open spec fn items_well_formed(s: Seq<DocValue>, k: nat) -> bool
    decreases s, k,
{
    if k == 0 || k > s.len() {
        true
    } else {
        items_well_formed(s, (k - 1) as nat) && well_formed(s[k - 1])
    }
}

/// Whether the values of the first `k` entries of `o` are well formed.
pub open spec fn entries_well_formed(o: Seq<(Seq<char>, DocValue)>, k: nat) -> bool
    decreases o, k,
{
    if k == 0 || k > o.len() {
        true
    } else {
        entries_well_formed(o, (k - 1) as nat) && well_formed(o[k - 1].1)
    }
}

/// An item among the first `k` of a sequence whose first `k` are well formed is
/// well formed.
proof fn lemma_items_well_formed_at(s: Seq<DocValue>, k: nat, i: int)
    requires
        items_well_formed(s, k),
        k <= s.len(),
        0 <= i < k,
    ensures
        well_formed(s[i]),
    decreases k,
{
    if i < k - 1 {
        lemma_items_well_formed_at(s, (k - 1) as nat, i);
    }
}

/// The value of an entry among the first `k` of an object whose first `k`
/// values are well formed is well formed.
proof fn lemma_entries_well_formed_at(o: Seq<(Seq<char>, DocValue)>, k: nat, i: int)
    requires
        entries_well_formed(o, k),
        k <= o.len(),
        0 <= i < k,
    ensures
        well_formed(o[i].1),
    decreases k,
{
    if i < k - 1 {
        lemma_entries_well_formed_at(o, (k - 1) as nat, i);
    }
}

/// No item of the first `k` has changed when none of them has.
proof fn lemma_items_unchanged(a: Seq<DocValue>, b: Seq<DocValue>, ign: Seq<Seq<char>>, k: nat)
    requires
        forall|i: int| 0 <= i < k ==> !changed(#[trigger] a[i], b[i], ign),
    ensures
        !items_changed(a, b, ign, k),
    decreases k,
{
    if k > 0 {
        lemma_items_unchanged(a, b, ign, (k - 1) as nat);
    }
}

/// No entry among the first `m` of `n` under `key` holds a value changed from
/// `v` when none of them does.
proof fn lemma_value_in_unchanged(
    v: DocValue,
    key: Seq<char>,
    n: Seq<(Seq<char>, DocValue)>,
    ign: Seq<Seq<char>>,
    m: nat,
)
    requires
        forall|j: int| 0 <= j < m && j < n.len() && #[trigger] n[j].0 == key ==> !changed(v, n[j].1, ign),
    ensures
        !value_changed_in(v, key, n, ign, m),
    decreases m,
{
    if m > 0 {
        lemma_value_in_unchanged(v, key, n, ign, (m - 1) as nat);
    }
}

/// No kept entry among the first `k` of `o` has a changed value in `n` when
/// none of them has.
proof fn lemma_values_unchanged(
    o: Seq<(Seq<char>, DocValue)>,
    n: Seq<(Seq<char>, DocValue)>,
    ign: Seq<Seq<char>>,
    k: nat,
)
    requires
        forall|i: int|
            0 <= i < k && i < o.len() && !ign.contains(#[trigger] o[i].0) ==> !value_changed_in(
                o[i].1,
                o[i].0,
                n,
                ign,
                n.len(),
            ),
    ensures
        !values_changed(o, n, ign, k),
    decreases k,
{
    if k > 0 {
        lemma_values_unchanged(o, n, ign, (k - 1) as nat);
    }
}

/// A well-formed document has not changed from itself.
pub proof fn lemma_unchanged_reflexive(d: DocValue, ign: Seq<Seq<char>>)
    requires
        well_formed(d),
    ensures
        !changed(d, d, ign),
    decreases d,
{
    if d is Object {
        let o = d->Object_0;
        assert forall|i: int| 0 <= i < o.len() implies has_key(o, #[trigger] o[i].0) by {}
        assert forall|i: int|
            0 <= i < o.len() && !ign.contains(#[trigger] o[i].0) implies !value_changed_in(
            o[i].1,
            o[i].0,
            o,
            ign,
            o.len(),
        ) by {
            lemma_entries_well_formed_at(o, o.len(), i);
            assert(decreases_to!(d => d->Object_0));
            assert(decreases_to!(o => o[i]));
            assert(decreases_to!(o[i] => o[i].1));
            lemma_unchanged_reflexive(o[i].1, ign);
            assert forall|j: int| 0 <= j < o.len() && #[trigger] o[j].0 == o[i].0 implies !changed(
                o[i].1,
                o[j].1,
                ign,
            ) by {
                assert(j == i);
            }
            lemma_value_in_unchanged(o[i].1, o[i].0, o, ign, o.len());
        }
        lemma_values_unchanged(o, o, ign, o.len());
    } else if d is Array {
        let s = d->Array_0;
        assert forall|i: int| 0 <= i < s.len() implies !changed(#[trigger] s[i], s[i], ign) by {
            lemma_items_well_formed_at(s, s.len(), i);
            assert(decreases_to!(d => d->Array_0));
            assert(decreases_to!(s => s[i]));
            lemma_unchanged_reflexive(s[i], ign);
        }
        lemma_items_unchanged(s, s, ign, s.len());
    }
}

/// Whether an object entry's key is kept, as a predicate.
pub open spec fn kept_key(ign: Seq<Seq<char>>) -> spec_fn((Seq<char>, DocValue)) -> bool {
    |p: (Seq<char>, DocValue)| !ign.contains(p.0)
}

/// Two well-formed objects that hold the same entries once the entries under
/// ignored keys are left out have not changed.
pub proof fn lemma_ignored_keys_insensitive(
    o: Seq<(Seq<char>, DocValue)>,
    n: Seq<(Seq<char>, DocValue)>,
    ign: Seq<Seq<char>>,
)
    requires
        well_formed(DocValue::Object(o)),
        well_formed(DocValue::Object(n)),
        o.filter(kept_key(ign)) == n.filter(kept_key(ign)),
    ensures
        !changed(DocValue::Object(o), DocValue::Object(n), ign),
{
    let pred = kept_key(ign);
    let f = o.filter(pred);
    assert forall|i: int| 0 <= i < o.len() && !ign.contains(#[trigger] o[i].0) implies has_key(
        n,
        o[i].0,
    ) by {
        o.lemma_filter_contains(pred, i);
        n.lemma_filter_contains_rev(pred, o[i]);
        let j = choose|j: int| 0 <= j < n.len() && n[j] == o[i];
    }
    assert forall|j: int| 0 <= j < n.len() && !ign.contains(#[trigger] n[j].0) implies has_key(
        o,
        n[j].0,
    ) by {
        n.lemma_filter_contains(pred, j);
        o.lemma_filter_contains_rev(pred, n[j]);
        let i = choose|i: int| 0 <= i < o.len() && o[i] == n[j];
    }
    assert forall|i: int|
        0 <= i < o.len() && !ign.contains(#[trigger] o[i].0) implies !value_changed_in(
        o[i].1,
        o[i].0,
        n,
        ign,
        n.len(),
    ) by {
        lemma_entries_well_formed_at(o, o.len(), i);
        lemma_unchanged_reflexive(o[i].1, ign);
        assert forall|j: int| 0 <= j < n.len() && #[trigger] n[j].0 == o[i].0 implies !changed(
            o[i].1,
            n[j].1,
            ign,
        ) by {
            n.lemma_filter_contains(pred, j);
            o.lemma_filter_contains_rev(pred, n[j]);
            let i2 = choose|i2: int| 0 <= i2 < o.len() && o[i2] == n[j];
            assert(o[i2].0 == o[i].0);
            assert(i2 == i);
        }
        lemma_value_in_unchanged(o[i].1, o[i].0, n, ign, n.len());
    }
    lemma_values_unchanged(o, n, ign, o.len());
}

/// The document with every object entry whose key is in `ign` left out, at every
/// depth.
pub open spec fn strip(d: DocValue, ign: Seq<Seq<char>>) -> DocValue
    decreases d, 0nat,
{
    if d is Object {
        DocValue::Object(strip_entries(d->Object_0, ign, d->Object_0.len()))
    } else if d is Array {
        DocValue::Array(strip_items(d->Array_0, ign, d->Array_0.len()))
    } else {
        d
    }
}

/// The first `k` entries of `o` whose keys are not in `ign`, each value stripped.
pub open spec fn strip_entries(o: Seq<(Seq<char>, DocValue)>, ign: Seq<Seq<char>>, k: nat) -> Seq<
    (Seq<char>, DocValue),
>
    decreases o, k,
{
    if k == 0 || k > o.len() {
        Seq::empty()
    } else if ign.contains(o[k - 1].0) {
        strip_entries(o, ign, (k - 1) as nat)
    } else {
        strip_entries(o, ign, (k - 1) as nat).push((o[k - 1].0, strip(o[k - 1].1, ign)))
    }
}

/// The first `k` items of `s`, each stripped.
pub open spec fn strip_items(s: Seq<DocValue>, ign: Seq<Seq<char>>, k: nat) -> Seq<DocValue>
    decreases s, k,
{
    if k == 0 || k > s.len() {
        Seq::empty()
    } else {
        strip_items(s, ign, (k - 1) as nat).push(strip(s[k - 1], ign))
    }
}

/// `strip_items` has one stripped item for each item.
proof fn lemma_strip_items(s: Seq<DocValue>, ign: Seq<Seq<char>>, k: nat)
    requires
        k <= s.len(),
    ensures
        strip_items(s, ign, k).len() == k,
        forall|i: int| 0 <= i < k ==> #[trigger] strip_items(s, ign, k)[i] == strip(s[i], ign),
    decreases k,
{
    if k > 0 {
        lemma_strip_items(s, ign, (k - 1) as nat);
    }
}

/// Each kept entry among the first `k` is in `strip_entries`, stripped, and each
/// element of `strip_entries` is such an entry.
proof fn lemma_strip_entries(o: Seq<(Seq<char>, DocValue)>, ign: Seq<Seq<char>>, k: nat)
    requires
        k <= o.len(),
    ensures
        forall|i: int|
            0 <= i < k && !ign.contains(#[trigger] o[i].0) ==> strip_entries(o, ign, k).contains(
                (o[i].0, strip(o[i].1, ign)),
            ),
        forall|x: (Seq<char>, DocValue)|
            #[trigger] strip_entries(o, ign, k).contains(x) ==> exists|i: int|
                0 <= i < k && !ign.contains(#[trigger] o[i].0) && x == (o[i].0, strip(o[i].1, ign)),
    decreases k,
{
    if k > 0 {
        lemma_strip_entries(o, ign, (k - 1) as nat);
        let prev = strip_entries(o, ign, (k - 1) as nat);
        let cur = strip_entries(o, ign, k);
        assert forall|i: int|
            0 <= i < k && !ign.contains(#[trigger] o[i].0) implies cur.contains(
            (o[i].0, strip(o[i].1, ign)),
        ) by {
            if i < k - 1 {
                let x = (o[i].0, strip(o[i].1, ign));
                assert(prev.contains(x));
                let m = choose|m: int| 0 <= m < prev.len() && prev[m] == x;
                if !ign.contains(o[k - 1].0) {
                    assert(cur[m] == prev[m]);
                }
            } else {
                assert(cur[cur.len() - 1] == (o[i].0, strip(o[i].1, ign)));
            }
        }
        assert forall|x: (Seq<char>, DocValue)| #[trigger] cur.contains(x) implies exists|i: int|
            0 <= i < k && !ign.contains(#[trigger] o[i].0) && x == (o[i].0, strip(o[i].1, ign)) by {
            let m = choose|m: int| 0 <= m < cur.len() && cur[m] == x;
            if ign.contains(o[k - 1].0) || m < prev.len() {
                assert(prev[m] == x);
                assert(prev.contains(x));
            } else {
                assert(x == (o[k - 1].0, strip(o[k - 1].1, ign)));
            }
        }
    }
}

/// Two well-formed documents that are equal once every entry under an ignored
/// key is left out, at any depth, have not changed.
pub proof fn lemma_ignored_keys_insensitive_at_depth(a: DocValue, b: DocValue, ign: Seq<Seq<char>>)
    requires
        well_formed(a),
        well_formed(b),
        strip(a, ign) == strip(b, ign),
    ensures
        !changed(a, b, ign),
    decreases a,
{
    if a is Object && b is Object {
        let o = a->Object_0;
        let n = b->Object_0;
        lemma_strip_entries(o, ign, o.len());
        lemma_strip_entries(n, ign, n.len());
        let so = strip_entries(o, ign, o.len());
        let sn = strip_entries(n, ign, n.len());
        assert(so == sn);
        assert forall|i: int| 0 <= i < o.len() && !ign.contains(#[trigger] o[i].0) implies has_key(
            n,
            o[i].0,
        ) by {
            assert(sn.contains((o[i].0, strip(o[i].1, ign))));
            let j = choose|j: int|
                0 <= j < n.len() && !ign.contains(#[trigger] n[j].0) && (o[i].0, strip(o[i].1, ign))
                    == (n[j].0, strip(n[j].1, ign));
        }
        assert forall|j: int| 0 <= j < n.len() && !ign.contains(#[trigger] n[j].0) implies has_key(
            o,
            n[j].0,
        ) by {
            assert(so.contains((n[j].0, strip(n[j].1, ign))));
            let i = choose|i: int|
                0 <= i < o.len() && !ign.contains(#[trigger] o[i].0) && (n[j].0, strip(n[j].1, ign))
                    == (o[i].0, strip(o[i].1, ign));
        }
        assert forall|i: int|
            0 <= i < o.len() && !ign.contains(#[trigger] o[i].0) implies !value_changed_in(
            o[i].1,
            o[i].0,
            n,
            ign,
            n.len(),
        ) by {
            assert forall|j: int| 0 <= j < n.len() && #[trigger] n[j].0 == o[i].0 implies !changed(
                o[i].1,
                n[j].1,
                ign,
            ) by {
                assert(sn.contains((o[i].0, strip(o[i].1, ign))));
                let j2 = choose|j2: int|
                    0 <= j2 < n.len() && !ign.contains(#[trigger] n[j2].0) && (o[i].0, strip(
                        o[i].1,
                        ign,
                    )) == (n[j2].0, strip(n[j2].1, ign));
                assert(j2 == j);
                lemma_entries_well_formed_at(o, o.len(), i);
                lemma_entries_well_formed_at(n, n.len(), j);
                assert(decreases_to!(a => a->Object_0));
                assert(decreases_to!(o => o[i]));
                assert(decreases_to!(o[i] => o[i].1));
                lemma_ignored_keys_insensitive_at_depth(o[i].1, n[j].1, ign);
            }
            lemma_value_in_unchanged(o[i].1, o[i].0, n, ign, n.len());
        }
        lemma_values_unchanged(o, n, ign, o.len());
    } else if a is Array && b is Array {
        let sa = a->Array_0;
        let sb = b->Array_0;
        lemma_strip_items(sa, ign, sa.len());
        lemma_strip_items(sb, ign, sb.len());
        assert(strip_items(sa, ign, sa.len()) == strip_items(sb, ign, sb.len()));
        assert forall|i: int| 0 <= i < sa.len() implies !changed(#[trigger] sa[i], sb[i], ign) by {
            assert(strip_items(sa, ign, sa.len())[i] == strip(sa[i], ign));
            assert(strip_items(sb, ign, sb.len())[i] == strip(sb[i], ign));
            lemma_items_well_formed_at(sa, sa.len(), i);
            lemma_items_well_formed_at(sb, sb.len(), i);
            assert(decreases_to!(a => a->Array_0));
            assert(decreases_to!(sa => sa[i]));
            lemma_ignored_keys_insensitive_at_depth(sa[i], sb[i], ign);
        }
        lemma_items_unchanged(sa, sb, ign, sa.len());
    }
}

} // verus!
