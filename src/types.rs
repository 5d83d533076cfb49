use vstd::prelude::*;

verus! {

/// The state of a line, from the most to the least disrupted.
#[derive(Clone, Copy, Debug, PartialEq, Eq, Structural, PartialOrd, Ord, Hash)]
pub enum LineState {
    Suspended,
    PartSuspended,
    PlannedClosure,
    PartClosure,
    ServiceClosed,
    SevereDelays,
    ReducedService,
    MinorDelays,
    GoodService,
    Other,
}

impl LineState {
    /// The position of the state in the order of declaration.
    pub open spec fn rank_spec(self) -> int {
        match self {
            LineState::Suspended => 0,
            LineState::PartSuspended => 1,
            LineState::PlannedClosure => 2,
            LineState::PartClosure => 3,
            LineState::ServiceClosed => 4,
            LineState::SevereDelays => 5,
            LineState::ReducedService => 6,
            LineState::MinorDelays => 7,
            LineState::GoodService => 8,
            LineState::Other => 9,
        }
    }

    /// The position of the state in the order of declaration.
    pub fn rank(&self) -> (r: u8)
        ensures
            r == self.rank_spec(),
    {
        match self {
            LineState::Suspended => 0,
            LineState::PartSuspended => 1,
            LineState::PlannedClosure => 2,
            LineState::PartClosure => 3,
            LineState::ServiceClosed => 4,
            LineState::SevereDelays => 5,
            LineState::ReducedService => 6,
            LineState::MinorDelays => 7,
            LineState::GoodService => 8,
            LineState::Other => 9,
        }
    }
}

/// The state of a station, from the most to the least disrupted.
#[derive(Clone, Copy, Debug, PartialEq, Eq, Structural, PartialOrd, Ord, Hash)]
pub enum StationState {
    Closure,
    PartClosure,
    InterchangeMessage,
    Information,
    Other,
}

impl StationState {
    /// The position of the state in the order of declaration.
    pub open spec fn rank_spec(self) -> int {
        match self {
            StationState::Closure => 0,
            StationState::PartClosure => 1,
            StationState::InterchangeMessage => 2,
            StationState::Information => 3,
            StationState::Other => 4,
        }
    }

    /// The position of the state in the order of declaration.
    pub fn rank(&self) -> (r: u8)
        ensures
            r == self.rank_spec(),
    {
        match self {
            StationState::Closure => 0,
            StationState::PartClosure => 1,
            StationState::InterchangeMessage => 2,
            StationState::Information => 3,
            StationState::Other => 4,
        }
    }
}

/// One status that a line reports.
#[derive(Clone, Debug)]
pub struct LineStatus {
    pub status: LineState,
    pub reason: Option<String>,
}

/// Descriptive facts about a line that are not tracked over time.
#[derive(Clone, Debug)]
pub struct LineMetadata {
    pub mode: String,
}

/// One disruption that a station reports.
#[derive(Clone, Debug)]
pub struct StationStatus {
    pub status: StationState,
    pub description: String,
}

/// The view of an optional string.
pub open spec fn opt_text(o: Option<String>) -> Option<Seq<char>> {
    match o {
        Some(s) => Some(s@),
        None => None,
    }
}

impl View for LineStatus {
    type V = (LineState, Option<Seq<char>>);

    open spec fn view(&self) -> (LineState, Option<Seq<char>>) {
        (self.status, opt_text(self.reason))
    }
}

impl View for StationStatus {
    type V = (StationState, Seq<char>);

    open spec fn view(&self) -> (StationState, Seq<char>) {
        (self.status, self.description@)
    }
}

/// Whether `a` comes before `b` in lexicographic order of characters, which is
/// also the byte order of their UTF-8 encodings.
pub open spec fn text_lt(a: Seq<char>, b: Seq<char>) -> bool {
    text_lt_from(a, b, 0)
}

/// `text_lt` on what follows the first `i` characters of each text.
pub open spec fn text_lt_from(a: Seq<char>, b: Seq<char>, i: int) -> bool
    decreases a.len() - i,
{
    if i < 0 || i >= a.len() {
        i >= 0 && i < b.len()
    } else if i >= b.len() {
        false
    } else if a[i] != b[i] {
        (a[i] as u32) < (b[i] as u32)
    } else {
        text_lt_from(a, b, i + 1)
    }
}

/// `text_lt_from` is irreflexive, transitive, and total on texts that agree
/// before position `i` and differ.
pub proof fn lemma_text_lt_from_order(a: Seq<char>, b: Seq<char>, c: Seq<char>, i: int)
    requires
        0 <= i,
    ensures
        !text_lt_from(a, a, i),
        text_lt_from(a, b, i) && text_lt_from(b, c, i) ==> text_lt_from(a, c, i),
        (forall|m: int| 0 <= m < i && m < a.len() ==> a[m] == b[m]) && i <= a.len() && i <= b.len()
            && a != b ==> text_lt_from(a, b, i) || text_lt_from(b, a, i),
    decreases a.len() - i,
{
    if i < a.len() && i < b.len() && i < c.len() {
        lemma_text_lt_from_order(a, b, c, i + 1);
    } else if i < a.len() && i < b.len() {
        lemma_text_lt_from_order(a, b, c, i + 1);
    } else if i < a.len() {
        lemma_text_lt_from_order(a, b, c, i + 1);
    }
    if (forall|m: int| 0 <= m < i && m < a.len() ==> a[m] == b[m]) && i <= a.len() && i <= b.len()
        && a != b {
        if i == a.len() && i == b.len() {
            assert(a =~= b);
        } else if i < a.len() && i < b.len() {
            if a[i] != b[i] {
                vstd::utf8::char_u32_cast(a[i], a[i] as u32);
                vstd::utf8::char_u32_cast(b[i], b[i] as u32);
            } else {
                assert(forall|m: int| 0 <= m < i + 1 && m < a.len() ==> a[m] == b[m]);
            }
        }
    }
}

/// `text_lt` is irreflexive, transitive and total.
pub proof fn lemma_text_lt_order(a: Seq<char>, b: Seq<char>, c: Seq<char>)
    ensures
        !text_lt(a, a),
        text_lt(a, b) && text_lt(b, c) ==> text_lt(a, c),
        a != b ==> text_lt(a, b) || text_lt(b, a),
{
    lemma_text_lt_from_order(a, b, c, 0);
}

/// Whether `a` comes before `b`.
pub fn text_less(a: &String, b: &String) -> (r: bool)
    ensures
        r == text_lt(a@, b@),
{
    let sa = a.as_str();
    let sb = b.as_str();
    let na = sa.unicode_len();
    let nb = sb.unicode_len();
    let mut i: usize = 0;
    while i < na && i < nb
        invariant
            na == a@.len(),
            nb == b@.len(),
            sa@ == a@,
            sb@ == b@,
            i <= na,
            i <= nb,
            text_lt(a@, b@) == text_lt_from(a@, b@, i as int),
        decreases na - i,
    {
        let ca = sa.get_char(i);
        let cb = sb.get_char(i);
        if ca != cb {
            return (ca as u32) < (cb as u32);
        }
        i += 1;
    }
    i < nb && i >= na
}

/// Whether the two texts are equal.
pub fn text_equal(a: &str, b: &str) -> (r: bool)
    ensures
        r == (a@ == b@),
{
    let na = a.unicode_len();
    let nb = b.unicode_len();
    if na != nb {
        return false;
    }
    let mut i: usize = 0;
    while i < na
        invariant
            na == a@.len(),
            nb == b@.len(),
            na == nb,
            i <= na,
            forall|m: int| 0 <= m < i ==> a@[m] == b@[m],
        decreases na - i,
    {
        if a.get_char(i) != b.get_char(i) {
            return false;
        }
        i += 1;
    }
    assert(a@ =~= b@);
    true
}

/// An entry of a status list, which lists are sorted by and compared on.
pub trait StatusEntry: View + Sized {
    /// Whether `a` comes strictly before `b` in the list order.
    spec fn before(a: Self::V, b: Self::V) -> bool;

    /// `before` is a strict total order: irreflexive, transitive, and total on
    /// distinct values.
    proof fn lemma_before_order(a: Self::V, b: Self::V, c: Self::V)
        ensures
            !Self::before(a, a),
            Self::before(a, b) && Self::before(b, c) ==> Self::before(a, c),
            a != b ==> Self::before(a, b) || Self::before(b, a),
    ;

    /// Whether `self` comes strictly before `other`.
    fn is_before(&self, other: &Self) -> (r: bool)
        ensures
            r == Self::before(self@, other@),
    ;

    /// Whether `self` and `other` have the same value.
    fn same(&self, other: &Self) -> (r: bool)
        ensures
            r == (self@ == other@),
    ;
}

impl StatusEntry for LineStatus {
    /// By state, then by reason, an absent reason first.
    open spec fn before(a: (LineState, Option<Seq<char>>), b: (LineState, Option<Seq<char>>)) -> bool {
        a.0.rank_spec() < b.0.rank_spec() || (a.0 == b.0 && match (a.1, b.1) {
            (None, Some(_)) => true,
            (Some(x), Some(y)) => text_lt(x, y),
            _ => false,
        })
    }

    proof fn lemma_before_order(
        a: (LineState, Option<Seq<char>>),
        b: (LineState, Option<Seq<char>>),
        c: (LineState, Option<Seq<char>>),
    ) {
        let ta = match a.1 {
            Some(t) => t,
            None => Seq::empty(),
        };
        let tb = match b.1 {
            Some(t) => t,
            None => Seq::empty(),
        };
        let tc = match c.1 {
            Some(t) => t,
            None => Seq::empty(),
        };
        lemma_text_lt_order(ta, tb, tc);
        lemma_text_lt_order(ta, ta, ta);
    }

    fn is_before(&self, other: &Self) -> (r: bool) {
        let ra = self.status.rank();
        let rb = other.status.rank();
        if ra != rb {
            return ra < rb;
        }
        match (&self.reason, &other.reason) {
            (None, Some(_)) => true,
            (Some(x), Some(y)) => text_less(x, y),
            _ => false,
        }
    }

    fn same(&self, other: &Self) -> (r: bool) {
        if self.status != other.status {
            return false;
        }
        match (&self.reason, &other.reason) {
            (None, None) => true,
            (Some(x), Some(y)) => *x == *y,
            _ => false,
        }
    }
}

impl StatusEntry for StationStatus {
    /// By state, then by description.
    open spec fn before(a: (StationState, Seq<char>), b: (StationState, Seq<char>)) -> bool {
        a.0.rank_spec() < b.0.rank_spec() || (a.0 == b.0 && text_lt(a.1, b.1))
    }

    proof fn lemma_before_order(
        a: (StationState, Seq<char>),
        b: (StationState, Seq<char>),
        c: (StationState, Seq<char>),
    ) {
        lemma_text_lt_order(a.1, b.1, c.1);
    }

    fn is_before(&self, other: &Self) -> (r: bool) {
        let ra = self.status.rank();
        let rb = other.status.rank();
        if ra != rb {
            return ra < rb;
        }
        text_less(&self.description, &other.description)
    }

    fn same(&self, other: &Self) -> (r: bool) {
        self.status == other.status && self.description == other.description
    }
}

} // verus!
