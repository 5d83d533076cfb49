use vstd::prelude::*;

verus! {

broadcast use vstd::std_specs::vec::axiom_vec_index_decreases,
    vstd::std_specs::vec::axiom_vec_decreases_to_view,
    vstd::seq::axiom_seq_index_decreases,
    vstd::seq::axiom_seq_subrange_decreases;

/// A JSON number as the feed's decoder represents it.
#[derive(Clone, Copy, Debug, PartialEq, Eq, Structural)]
pub enum Number {
    /// A non-negative integer.
    PosInt(u64),
    /// A negative integer.
    NegInt(i64),
    /// A floating-point number, held by the bits of its IEEE-754 encoding
    /// (negative zero is stored as positive zero).
    FloatBits(u64),
}

/// A tree-shaped, schema-less document: what the status feed returns for one entity.
#[derive(Debug)]
pub enum Document {
    Null,
    Bool(bool),
    Number(Number),
    Text(String),
    Array(Vec<Document>),
    /// Key/value entries; a well-formed object holds each key once.
    Object(Vec<(String, Document)>),
}

/// The mathematical value of a [`Document`].
pub enum DocValue {
    Null,
    Bool(bool),
    Number(Number),
    Text(Seq<char>),
    Array(Seq<DocValue>),
    Object(Seq<(Seq<char>, DocValue)>),
}

/// The value of a document.
pub open spec fn doc_value(d: Document) -> DocValue
    decreases d,
{
    match d {
        Document::Null => DocValue::Null,
        Document::Bool(b) => DocValue::Bool(b),
        Document::Number(n) => DocValue::Number(n),
        Document::Text(s) => DocValue::Text(s@),
        Document::Array(v) => DocValue::Array(docs_values(v@)),
        Document::Object(o) => DocValue::Object(entries_values(o@)),
    }
}

/// The values of a sequence of documents, position by position.
pub open spec fn docs_values(s: Seq<Document>) -> Seq<DocValue>
    decreases s,
{
    if s.len() == 0 {
        Seq::empty()
    } else {
        docs_values(s.subrange(0, s.len() - 1)).push(doc_value(s[s.len() - 1]))
    }
}

/// The values of a sequence of object entries, position by position.
pub open spec fn entries_values(s: Seq<(String, Document)>) -> Seq<(Seq<char>, DocValue)>
    decreases s,
{
    if s.len() == 0 {
        Seq::empty()
    } else {
        entries_values(s.subrange(0, s.len() - 1)).push(
            (s[s.len() - 1].0@, doc_value(s[s.len() - 1].1)),
        )
    }
}

impl View for Document {
    type V = DocValue;

    open spec fn view(&self) -> DocValue {
        doc_value(*self)
    }
}

/// `docs_values(s)` has one value for each document of `s`, in order.
pub proof fn lemma_docs_values_all(s: Seq<Document>)
    ensures
        docs_values(s).len() == s.len(),
        forall|i: int| 0 <= i < s.len() ==> docs_values(s)[i] == s[i]@,
    decreases s.len(),
{
    if s.len() > 0 {
        lemma_docs_values_all(s.subrange(0, s.len() - 1));
    }
}

/// `entries_values(s)` has one key and value for each entry of `s`, in order.
pub proof fn lemma_entries_values_all(s: Seq<(String, Document)>)
    ensures
        entries_values(s).len() == s.len(),
        forall|i: int| 0 <= i < s.len() ==> entries_values(s)[i] == (s[i].0@, s[i].1@),
    decreases s.len(),
{
    if s.len() > 0 {
        lemma_entries_values_all(s.subrange(0, s.len() - 1));
    }
}

/// The length of `docs_values(s)`.
pub broadcast proof fn lemma_docs_values_len(s: Seq<Document>)
    ensures
        #[trigger] docs_values(s).len() == s.len(),
{
    lemma_docs_values_all(s);
}

/// One position of `docs_values(s)`.
pub broadcast proof fn lemma_docs_values_index(s: Seq<Document>, i: int)
    requires
        0 <= i < s.len(),
    ensures
        #[trigger] docs_values(s)[i] == s[i]@,
{
    lemma_docs_values_all(s);
}

/// The length of `entries_values(s)`.
pub broadcast proof fn lemma_entries_values_len(s: Seq<(String, Document)>)
    ensures
        #[trigger] entries_values(s).len() == s.len(),
{
    lemma_entries_values_all(s);
}

/// One position of `entries_values(s)`.
pub broadcast proof fn lemma_entries_values_index(s: Seq<(String, Document)>, i: int)
    requires
        0 <= i < s.len(),
    ensures
        #[trigger] entries_values(s)[i] == (s[i].0@, s[i].1@),
{
    lemma_entries_values_all(s);
}

/// The facts that relate documents to their values.
pub broadcast group group_doc_values {
    lemma_docs_values_len,
    lemma_docs_values_index,
    lemma_entries_values_len,
    lemma_entries_values_index,
}

impl Document {
    /// A copy of the document.
    pub fn duplicate(&self) -> (r: Document)
        ensures
            r@ == self@,
        decreases self,
    {
        broadcast use group_doc_values;

        match self {
            Document::Null => Document::Null,
            Document::Bool(b) => Document::Bool(*b),
            Document::Number(n) => Document::Number(*n),
            Document::Text(t) => Document::Text(t.clone()),
            Document::Array(v) => {
                let mut out: Vec<Document> = Vec::new();
                let mut i: usize = 0;
                while i < v.len()
                    invariant
                        *self == Document::Array(*v),
                        i <= v@.len(),
                        out@.len() == i,
                        forall|m: int| 0 <= m < i ==> #[trigger] out@[m]@ == v@[m]@,
                    decreases v@.len() - i,
                {
                    proof {
                        assert(decreases_to!(*self => (*self)->Array_0));
                        assert(decreases_to!(*v => v@[i as int]));
                    }
                    out.push(v[i].duplicate());
                    i += 1;
                }
                assert(docs_values(out@) =~= docs_values(v@));
                Document::Array(out)
            },
            Document::Object(o) => {
                let mut out: Vec<(String, Document)> = Vec::new();
                let mut i: usize = 0;
                while i < o.len()
                    invariant
                        *self == Document::Object(*o),
                        i <= o@.len(),
                        out@.len() == i,
                        forall|m: int|
                            0 <= m < i ==> #[trigger] out@[m].0@ == o@[m].0@ && out@[m].1@ == o@[m].1@,
                    decreases o@.len() - i,
                {
                    proof {
                        assert(decreases_to!(*self => (*self)->Object_0));
                        assert(decreases_to!(*o => o@[i as int]));
                        assert(decreases_to!(o@[i as int] => o@[i as int].1));
                    }
                    let value = o[i].1.duplicate();
                    out.push((o[i].0.clone(), value));
                    i += 1;
                }
                assert(entries_values(out@) =~= entries_values(o@));
                Document::Object(out)
            },
        }
    }
}

} // verus!

verus! {

/// The value under key `k` in `o`, from position `i` on; the first one counts.
pub open spec fn lookup_from(o: Seq<(Seq<char>, DocValue)>, k: Seq<char>, i: int) -> Option<DocValue>
    decreases o.len() - i,
{
    if i < 0 || i >= o.len() {
        None
    } else if o[i].0 == k {
        Some(o[i].1)
    } else {
        lookup_from(o, k, i + 1)
    }
}

/// The value under key `k` of an object; none for any other document.
pub open spec fn field(d: DocValue, k: Seq<char>) -> Option<DocValue> {
    if d is Object {
        lookup_from(d->Object_0, k, 0)
    } else {
        None
    }
}

/// The view of an optional document reference.
pub open spec fn opt_doc(o: Option<&Document>) -> Option<DocValue> {
    match o {
        Some(d) => Some(d@),
        None => None,
    }
}

impl Document {
    /// The value under `key`, if this is an object that has it.
    pub fn get(&self, key: &str) -> (r: Option<&Document>)
        ensures
            opt_doc(r) == field(self@, key@),
    {
        match self {
            Document::Object(o) => {
                let ghost ov = entries_values(o@);
                proof {
                    lemma_entries_values_all(o@);
                }
                assert(self@ == DocValue::Object(ov));
                let mut i: usize = 0;
                while i < o.len()
                    invariant
                        i <= o@.len(),
                        ov == entries_values(o@),
                        self@ == DocValue::Object(ov),
                        lookup_from(ov, key@, 0) == lookup_from(ov, key@, i as int),
                    decreases o@.len() - i,
                {
                    proof {
                        lemma_entries_values_all(o@);
                    }
                    if crate::types::text_equal(o[i].0.as_str(), key) {
                        return Some(&o[i].1);
                    }
                    i += 1;
                }
                None
            },
            _ => None,
        }
    }

    /// The text, if this is a text.
    pub fn as_text(&self) -> (r: Option<&String>)
        ensures
            match r {
                Some(s) => self@ == DocValue::Text(s@),
                None => !(self@ is Text),
            },
    {
        match self {
            Document::Text(s) => Some(s),
            _ => None,
        }
    }
}

} // verus!
