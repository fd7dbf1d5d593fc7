//! The per-topic time-series store.
//!
//! A topic is a named, typed series of `(timestamp, value)` samples.  The
//! first write to a topic fixes its value kind for its lifetime; a later
//! write of a different kind is silently dropped, as in the wire protocol
//! this store serves.  A new sample is appended only when its value differs
//! from the immediately preceding stored value (write coalescing), so the
//! series length is bounded by the number of actual changes.  Doubles are
//! carried as their IEEE-754 bit patterns and coalesced by bit equality.
//!
//! All queries are total: an absent topic, an empty series, or a query
//! time before the first sample falls back to the caller's default.

use crate::alist::{alist_distinct, alist_find, alist_get, lemma_get_absent, lemma_get_at_index,
    lemma_get_push, lemma_get_update};
use vstd::prelude::*;

verus! {

/// The character views of a sequence of strings.
pub open spec fn strings_view(s: Seq<String>) -> Seq<Seq<char>> {
    s.map_values(|x: String| x@)
}

/// The element views of a sequence of vectors.
pub open spec fn vecs_view<T>(s: Seq<Vec<T>>) -> Seq<Seq<T>> {
    s.map_values(|x: Vec<T>| x@)
}

/// The character views of a sequence of string vectors.
pub open spec fn string_vecs_view(s: Seq<Vec<String>>) -> Seq<Seq<Seq<char>>> {
    s.map_values(|x: Vec<String>| strings_view(x@))
}

/// One topic's series, tagged by its fixed value kind.  The two vectors
/// run in parallel: `timestamps[i]` is when `values[i]` was stored.
pub enum TopicData {
    Double { timestamps: Vec<u64>, values: Vec<u64> },
    Boolean { timestamps: Vec<u64>, values: Vec<bool> },
    Text { timestamps: Vec<u64>, values: Vec<String> },
    DoubleArray { timestamps: Vec<u64>, values: Vec<Vec<u64>> },
    BooleanArray { timestamps: Vec<u64>, values: Vec<Vec<bool>> },
    TextArray { timestamps: Vec<u64>, values: Vec<Vec<String>> },
    Raw { timestamps: Vec<u64>, values: Vec<Vec<u8>> },
}

/// Mathematical view of a topic's series.
pub enum TopicDataView {
    Double { ts: Seq<u64>, vals: Seq<u64> },
    Boolean { ts: Seq<u64>, vals: Seq<bool> },
    Text { ts: Seq<u64>, vals: Seq<Seq<char>> },
    DoubleArray { ts: Seq<u64>, vals: Seq<Seq<u64>> },
    BooleanArray { ts: Seq<u64>, vals: Seq<Seq<bool>> },
    TextArray { ts: Seq<u64>, vals: Seq<Seq<Seq<char>>> },
    Raw { ts: Seq<u64>, vals: Seq<Seq<u8>> },
}

impl View for TopicData {
    type V = TopicDataView;

    open spec fn view(&self) -> TopicDataView {
        match self {
            TopicData::Double { timestamps, values } => TopicDataView::Double {
                ts: timestamps@,
                vals: values@,
            },
            TopicData::Boolean { timestamps, values } => TopicDataView::Boolean {
                ts: timestamps@,
                vals: values@,
            },
            TopicData::Text { timestamps, values } => TopicDataView::Text {
                ts: timestamps@,
                vals: strings_view(values@),
            },
            TopicData::DoubleArray { timestamps, values } => TopicDataView::DoubleArray {
                ts: timestamps@,
                vals: vecs_view(values@),
            },
            TopicData::BooleanArray { timestamps, values } => TopicDataView::BooleanArray {
                ts: timestamps@,
                vals: vecs_view(values@),
            },
            TopicData::TextArray { timestamps, values } => TopicDataView::TextArray {
                ts: timestamps@,
                vals: string_vecs_view(values@),
            },
            TopicData::Raw { timestamps, values } => TopicDataView::Raw {
                ts: timestamps@,
                vals: vecs_view(values@),
            },
        }
    }
}

impl TopicDataView {
    /// The timestamps, whatever the kind.
    pub open spec fn ts(self) -> Seq<u64> {
        match self {
            TopicDataView::Double { ts, .. } => ts,
            TopicDataView::Boolean { ts, .. } => ts,
            TopicDataView::Text { ts, .. } => ts,
            TopicDataView::DoubleArray { ts, .. } => ts,
            TopicDataView::BooleanArray { ts, .. } => ts,
            TopicDataView::TextArray { ts, .. } => ts,
            TopicDataView::Raw { ts, .. } => ts,
        }
    }

    /// How many values the series holds.
    pub open spec fn n_vals(self) -> nat {
        match self {
            TopicDataView::Double { vals, .. } => vals.len(),
            TopicDataView::Boolean { vals, .. } => vals.len(),
            TopicDataView::Text { vals, .. } => vals.len(),
            TopicDataView::DoubleArray { vals, .. } => vals.len(),
            TopicDataView::BooleanArray { vals, .. } => vals.len(),
            TopicDataView::TextArray { vals, .. } => vals.len(),
            TopicDataView::Raw { vals, .. } => vals.len(),
        }
    }

    /// The two parallel vectors have the same length.
    pub open spec fn wf(self) -> bool {
        self.ts().len() == self.n_vals()
    }
}

/// The smaller of two timestamps.
pub open spec fn min_u64(a: u64, b: u64) -> u64 {
    if a < b {
        a
    } else {
        b
    }
}

/// The larger of two timestamps.
pub open spec fn max_u64(a: u64, b: u64) -> u64 {
    if a > b {
        a
    } else {
        b
    }
}

/// A series' first timestamp, or `u64::MAX` when it has none.
pub open spec fn first_or_max(v: TopicDataView) -> u64 {
    if v.ts().len() == 0 {
        u64::MAX
    } else {
        v.ts()[0]
    }
}

/// A series' last timestamp, or 0 when it has none.
pub open spec fn last_or_zero(v: TopicDataView) -> u64 {
    if v.ts().len() == 0 {
        0
    } else {
        v.ts().last()
    }
}

/// The smallest first timestamp over all stored topics (`u64::MAX` when
/// no topic has a sample).
pub open spec fn spec_min_first(entries: Seq<(String, TopicData)>) -> u64
    decreases entries.len(),
{
    if entries.len() == 0 {
        u64::MAX
    } else {
        min_u64(first_or_max(entries[0].1@), spec_min_first(entries.drop_first()))
    }
}

/// The largest last timestamp over all stored topics (0 when no topic
/// has a sample).
pub open spec fn spec_max_last(entries: Seq<(String, TopicData)>) -> u64
    decreases entries.len(),
{
    if entries.len() == 0 {
        0
    } else {
        max_u64(last_or_zero(entries[0].1@), spec_max_last(entries.drop_first()))
    }
}

/// The display label derived from a topic's value kind, used when no
/// explicit label was set.
pub open spec fn kind_label(v: TopicDataView) -> Seq<char> {
    match v {
        TopicDataView::Double { .. } => "double"@,
        TopicDataView::Boolean { .. } => "boolean"@,
        TopicDataView::Text { .. } => "string"@,
        TopicDataView::DoubleArray { .. } => "double[]"@,
        TopicDataView::BooleanArray { .. } => "boolean[]"@,
        TopicDataView::TextArray { .. } => "string[]"@,
        TopicDataView::Raw { .. } => "raw"@,
    }
}

impl TopicData {
    /// An empty double series.
    pub fn new_double() -> (r: Self)
        ensures
            r@ == (TopicDataView::Double { ts: Seq::<u64>::empty(), vals: Seq::<u64>::empty() }),
    {
        let r = TopicData::Double { timestamps: Vec::new(), values: Vec::new() };
        proof {
            assert(r@.ts() =~= Seq::<u64>::empty());
        }
        r
    }

    /// An empty boolean series.
    pub fn new_boolean() -> (r: Self)
        ensures
            r@ == (TopicDataView::Boolean {
                ts: Seq::<u64>::empty(),
                vals: Seq::<bool>::empty(),
            }),
    {
        let r = TopicData::Boolean { timestamps: Vec::new(), values: Vec::new() };
        proof {
            assert(r@.ts() =~= Seq::<u64>::empty());
        }
        r
    }

    /// An empty string series.
    pub fn new_string() -> (r: Self)
        ensures
            r@ == (TopicDataView::Text {
                ts: Seq::<u64>::empty(),
                vals: Seq::<Seq<char>>::empty(),
            }),
    {
        let r = TopicData::Text { timestamps: Vec::new(), values: Vec::new() };
        proof {
            assert(r@.ts() =~= Seq::<u64>::empty());
            assert(strings_view(Seq::<String>::empty()) =~= Seq::<Seq<char>>::empty());
        }
        r
    }

    /// An empty double-array series.
    pub fn new_double_array() -> (r: Self)
        ensures
            r@ == (TopicDataView::DoubleArray {
                ts: Seq::<u64>::empty(),
                vals: Seq::<Seq<u64>>::empty(),
            }),
    {
        let r = TopicData::DoubleArray { timestamps: Vec::new(), values: Vec::new() };
        proof {
            assert(r@.ts() =~= Seq::<u64>::empty());
            assert(vecs_view(Seq::<Vec<u64>>::empty()) =~= Seq::<Seq<u64>>::empty());
        }
        r
    }

    /// An empty boolean-array series.
    pub fn new_boolean_array() -> (r: Self)
        ensures
            r@ == (TopicDataView::BooleanArray {
                ts: Seq::<u64>::empty(),
                vals: Seq::<Seq<bool>>::empty(),
            }),
    {
        let r = TopicData::BooleanArray { timestamps: Vec::new(), values: Vec::new() };
        proof {
            assert(r@.ts() =~= Seq::<u64>::empty());
            assert(vecs_view(Seq::<Vec<bool>>::empty()) =~= Seq::<Seq<bool>>::empty());
        }
        r
    }

    /// An empty string-array series.
    pub fn new_string_array() -> (r: Self)
        ensures
            r@ == (TopicDataView::TextArray {
                ts: Seq::<u64>::empty(),
                vals: Seq::<Seq<Seq<char>>>::empty(),
            }),
    {
        let r = TopicData::TextArray { timestamps: Vec::new(), values: Vec::new() };
        proof {
            assert(r@.ts() =~= Seq::<u64>::empty());
            assert(string_vecs_view(Seq::<Vec<String>>::empty()) =~= Seq::<
                Seq<Seq<char>>,
            >::empty());
        }
        r
    }

    /// An empty raw-bytes series.
    pub fn new_raw() -> (r: Self)
        ensures
            r@ == (TopicDataView::Raw {
                ts: Seq::<u64>::empty(),
                vals: Seq::<Seq<u8>>::empty(),
            }),
    {
        let r = TopicData::Raw { timestamps: Vec::new(), values: Vec::new() };
        proof {
            assert(r@.ts() =~= Seq::<u64>::empty());
            assert(vecs_view(Seq::<Vec<u8>>::empty()) =~= Seq::<Seq<u8>>::empty());
        }
        r
    }

    /// This series' last timestamp, or 0 when it has none.
    pub fn last_timestamp(&self) -> (r: u64)
        ensures
            r == last_or_zero(self@),
    {
        match self {
            TopicData::Double { timestamps, .. } => last_ts_or_zero(timestamps),
            TopicData::Boolean { timestamps, .. } => last_ts_or_zero(timestamps),
            TopicData::Text { timestamps, .. } => last_ts_or_zero(timestamps),
            TopicData::DoubleArray { timestamps, .. } => last_ts_or_zero(timestamps),
            TopicData::BooleanArray { timestamps, .. } => last_ts_or_zero(timestamps),
            TopicData::TextArray { timestamps, .. } => last_ts_or_zero(timestamps),
            TopicData::Raw { timestamps, .. } => last_ts_or_zero(timestamps),
        }
    }

    /// This series' first timestamp, or `u64::MAX` when it has none.
    fn first_timestamp_or_max(&self) -> (r: u64)
        ensures
            r == first_or_max(self@),
    {
        match self {
            TopicData::Double { timestamps, .. } => first_ts_or_max(timestamps),
            TopicData::Boolean { timestamps, .. } => first_ts_or_max(timestamps),
            TopicData::Text { timestamps, .. } => first_ts_or_max(timestamps),
            TopicData::DoubleArray { timestamps, .. } => first_ts_or_max(timestamps),
            TopicData::BooleanArray { timestamps, .. } => first_ts_or_max(timestamps),
            TopicData::TextArray { timestamps, .. } => first_ts_or_max(timestamps),
            TopicData::Raw { timestamps, .. } => first_ts_or_max(timestamps),
        }
    }
}

/// The last element of a timestamp vector, or 0.
fn last_ts_or_zero(timestamps: &Vec<u64>) -> (r: u64)
    ensures
        r == (if timestamps@.len() == 0 {
            0u64
        } else {
            timestamps@.last()
        }),
{
    if timestamps.len() == 0 {
        0
    } else {
        timestamps[timestamps.len() - 1]
    }
}

/// The first element of a timestamp vector, or `u64::MAX`.
fn first_ts_or_max(timestamps: &Vec<u64>) -> (r: u64)
    ensures
        r == (if timestamps@.len() == 0 {
            u64::MAX
        } else {
            timestamps@[0]
        }),
{
    if timestamps.len() == 0 {
        u64::MAX
    } else {
        timestamps[0]
    }
}

/// The query time an embedding's cursor stands for: 0 means "live", that
/// is, the latest sample regardless of wall time.
pub fn effective_query_time(cursor_time: u64) -> (r: u64)
    ensures
        r == (if cursor_time == 0 {
            u64::MAX
        } else {
            cursor_time
        }),
{
    if cursor_time == 0 {
        u64::MAX
    } else {
        cursor_time
    }
}

/// A plain value of any of the store's kinds, used when a caller carries
/// a value whose kind is only known at run time.
pub enum TopicValue {
    Double(u64),
    Boolean(bool),
    Text(String),
    DoubleArray(Vec<u64>),
    BooleanArray(Vec<bool>),
    TextArray(Vec<String>),
    Raw(Vec<u8>),
}

/// Mathematical view of a [`TopicValue`].
pub enum ValueView {
    Double(u64),
    Boolean(bool),
    Text(Seq<char>),
    DoubleArray(Seq<u64>),
    BooleanArray(Seq<bool>),
    TextArray(Seq<Seq<char>>),
    Raw(Seq<u8>),
}

impl View for TopicValue {
    type V = ValueView;

    open spec fn view(&self) -> ValueView {
        match self {
            TopicValue::Double(v) => ValueView::Double(*v),
            TopicValue::Boolean(v) => ValueView::Boolean(*v),
            TopicValue::Text(v) => ValueView::Text(v@),
            TopicValue::DoubleArray(v) => ValueView::DoubleArray(v@),
            TopicValue::BooleanArray(v) => ValueView::BooleanArray(v@),
            TopicValue::TextArray(v) => ValueView::TextArray(strings_view(v@)),
            TopicValue::Raw(v) => ValueView::Raw(v@),
        }
    }
}

/// An empty series of the kind of `v`.
pub open spec fn empty_series_of(v: ValueView) -> TopicDataView {
    match v {
        ValueView::Double(_) => TopicDataView::Double { ts: Seq::empty(), vals: Seq::empty() },
        ValueView::Boolean(_) => TopicDataView::Boolean { ts: Seq::empty(), vals: Seq::empty() },
        ValueView::Text(_) => TopicDataView::Text { ts: Seq::empty(), vals: Seq::empty() },
        ValueView::DoubleArray(_) => TopicDataView::DoubleArray {
            ts: Seq::empty(),
            vals: Seq::empty(),
        },
        ValueView::BooleanArray(_) => TopicDataView::BooleanArray {
            ts: Seq::empty(),
            vals: Seq::empty(),
        },
        ValueView::TextArray(_) => TopicDataView::TextArray {
            ts: Seq::empty(),
            vals: Seq::empty(),
        },
        ValueView::Raw(_) => TopicDataView::Raw { ts: Seq::empty(), vals: Seq::empty() },
    }
}

/// Write coalescing at the series level: the sample is appended unless it
/// repeats the last stored value.
pub open spec fn coalesced_push<T>(ts: Seq<u64>, vals: Seq<T>, t: u64, v: T) -> (Seq<u64>, Seq<T>) {
    if vals.len() > 0 && vals.last() == v {
        (ts, vals)
    } else {
        (ts.push(t), vals.push(v))
    }
}

/// What one update does to one topic's series: a first write fixes the
/// kind, a matching write is coalesced-pushed, a mismatched write leaves
/// the series untouched.
pub open spec fn spec_update(m: Option<TopicDataView>, t: u64, v: ValueView) -> TopicDataView {
    let cur = match m {
        None => empty_series_of(v),
        Some(c) => c,
    };
    match (cur, v) {
        (TopicDataView::Double { ts, vals }, ValueView::Double(x)) => {
            let (ts2, vals2) = coalesced_push(ts, vals, t, x);
            TopicDataView::Double { ts: ts2, vals: vals2 }
        },
        (TopicDataView::Boolean { ts, vals }, ValueView::Boolean(x)) => {
            let (ts2, vals2) = coalesced_push(ts, vals, t, x);
            TopicDataView::Boolean { ts: ts2, vals: vals2 }
        },
        (TopicDataView::Text { ts, vals }, ValueView::Text(x)) => {
            let (ts2, vals2) = coalesced_push(ts, vals, t, x);
            TopicDataView::Text { ts: ts2, vals: vals2 }
        },
        (TopicDataView::DoubleArray { ts, vals }, ValueView::DoubleArray(x)) => {
            let (ts2, vals2) = coalesced_push(ts, vals, t, x);
            TopicDataView::DoubleArray { ts: ts2, vals: vals2 }
        },
        (TopicDataView::BooleanArray { ts, vals }, ValueView::BooleanArray(x)) => {
            let (ts2, vals2) = coalesced_push(ts, vals, t, x);
            TopicDataView::BooleanArray { ts: ts2, vals: vals2 }
        },
        (TopicDataView::TextArray { ts, vals }, ValueView::TextArray(x)) => {
            let (ts2, vals2) = coalesced_push(ts, vals, t, x);
            TopicDataView::TextArray { ts: ts2, vals: vals2 }
        },
        (TopicDataView::Raw { ts, vals }, ValueView::Raw(x)) => {
            let (ts2, vals2) = coalesced_push(ts, vals, t, x);
            TopicDataView::Raw { ts: ts2, vals: vals2 }
        },
        (other, _) => other,
    }
}

/// Element-by-element equality of two `u64` vectors.
fn u64_vec_eq(a: &Vec<u64>, b: &Vec<u64>) -> (r: bool)
    ensures
        r == (a@ == b@),
{
    if a.len() != b.len() {
        return false;
    }
    let mut i: usize = 0;
    while i < a.len()
        invariant
            i <= a@.len(),
            a@.len() == b@.len(),
            forall|j: int| 0 <= j < i ==> a@[j] == b@[j],
        decreases a@.len() - i,
    {
        if a[i] != b[i] {
            return false;
        }
        i += 1;
    }
    proof {
        assert(a@ =~= b@);
    }
    true
}

/// Element-by-element equality of two `bool` vectors.
fn bool_vec_eq(a: &Vec<bool>, b: &Vec<bool>) -> (r: bool)
    ensures
        r == (a@ == b@),
{
    if a.len() != b.len() {
        return false;
    }
    let mut i: usize = 0;
    while i < a.len()
        invariant
            i <= a@.len(),
            a@.len() == b@.len(),
            forall|j: int| 0 <= j < i ==> a@[j] == b@[j],
        decreases a@.len() - i,
    {
        if a[i] != b[i] {
            return false;
        }
        i += 1;
    }
    proof {
        assert(a@ =~= b@);
    }
    true
}

/// Element-by-element equality of two byte vectors.
fn u8_vec_eq(a: &Vec<u8>, b: &Vec<u8>) -> (r: bool)
    ensures
        r == (a@ == b@),
{
    if a.len() != b.len() {
        return false;
    }
    let mut i: usize = 0;
    while i < a.len()
        invariant
            i <= a@.len(),
            a@.len() == b@.len(),
            forall|j: int| 0 <= j < i ==> a@[j] == b@[j],
        decreases a@.len() - i,
    {
        if a[i] != b[i] {
            return false;
        }
        i += 1;
    }
    proof {
        assert(a@ =~= b@);
    }
    true
}

/// Character-exact equality of two string vectors.
fn string_vec_eq(a: &Vec<String>, b: &Vec<String>) -> (r: bool)
    ensures
        r == (strings_view(a@) == strings_view(b@)),
{
    if a.len() != b.len() {
        proof {
            assert(strings_view(a@).len() != strings_view(b@).len());
        }
        return false;
    }
    let mut i: usize = 0;
    while i < a.len()
        invariant
            i <= a@.len(),
            a@.len() == b@.len(),
            forall|j: int| 0 <= j < i ==> strings_view(a@)[j] == strings_view(b@)[j],
        decreases a@.len() - i,
    {
        if !(a[i] == b[i]) {
            proof {
                assert(strings_view(a@)[i as int] != strings_view(b@)[i as int]);
            }
            return false;
        }
        i += 1;
    }
    proof {
        assert(strings_view(a@) =~= strings_view(b@));
    }
    true
}

/// Timestamps in non-decreasing order, the store's data-model invariant
/// for a writer that sends its updates in order.
pub open spec fn sorted(ts: Seq<u64>) -> bool {
    forall|i: int, j: int| 0 <= i <= j < ts.len() ==> ts[i] <= ts[j]
}

/// For a sorted series: how many leading samples lie at or before `q`.
pub open spec fn partition(ts: Seq<u64>, q: u64) -> int
    decreases ts.len(),
{
    if ts.len() == 0 {
        0
    } else if ts.last() <= q {
        ts.len() as int
    } else {
        partition(ts.drop_last(), q)
    }
}

/// The value in effect at query time `q`: the last sample at or before
/// `q`, or `default` when the series is empty or `q` precedes it.
pub open spec fn step_lookup<T>(ts: Seq<u64>, vals: Seq<T>, q: u64, default: T) -> T {
    if partition(ts, q) == 0 {
        default
    } else {
        vals[partition(ts, q) - 1]
    }
}

/// On a sorted series, `partition` is the unique split point: everything
/// before it is at or before `q`, everything from it on is after `q`.
pub proof fn lemma_partition_characterizes(ts: Seq<u64>, q: u64, p: int)
    requires
        sorted(ts),
        0 <= p <= ts.len(),
        forall|i: int| 0 <= i < p ==> ts[i] <= q,
        forall|i: int| p <= i < ts.len() ==> ts[i] > q,
    ensures
        partition(ts, q) == p,
    decreases ts.len(),
{
    if ts.len() > 0 {
        if ts.last() <= q {
            assert(p == ts.len());
        } else {
            assert(p < ts.len());
            lemma_partition_characterizes(ts.drop_last(), q, p);
        }
    }
}

/// Bounds and meaning of `partition` on a sorted series.
pub proof fn lemma_partition_bounds(ts: Seq<u64>, q: u64)
    requires
        sorted(ts),
    ensures
        0 <= partition(ts, q) <= ts.len(),
        forall|i: int| 0 <= i < partition(ts, q) ==> ts[i] <= q,
        forall|i: int| partition(ts, q) <= i < ts.len() ==> ts[i] > q,
    decreases ts.len(),
{
    if ts.len() > 0 && ts.last() > q {
        let tsd = ts.drop_last();
        assert forall|i: int, j: int| 0 <= i <= j < tsd.len() implies tsd[i] <= tsd[j] by {
            assert(ts[i] <= ts[j]);
        }
        lemma_partition_bounds(tsd, q);
        let p: int = partition(ts, q);
        assert forall|i: int| 0 <= i < p implies ts[i] <= q by {
            assert(tsd[i] <= q);
        }
        assert forall|i: int| p <= i < ts.len() implies ts[i] > q by {
            if i < ts.len() - 1 {
                assert(tsd[i] > q);
            }
        }
    }
}

/// Copies a `u64` vector.
fn copy_u64_vec(v: &Vec<u64>) -> (r: Vec<u64>)
    ensures
        r@ == v@,
{
    let mut r: Vec<u64> = Vec::new();
    let mut i: usize = 0;
    while i < v.len()
        invariant
            i <= v@.len(),
            r@ == v@.take(i as int),
        decreases v@.len() - i,
    {
        r.push(v[i]);
        proof {
            assert(v@.take(i + 1 as int) =~= v@.take(i as int).push(v@[i as int]));
        }
        i += 1;
    }
    proof {
        assert(v@.take(v@.len() as int) =~= v@);
    }
    r
}

/// Copies a `bool` vector.
fn copy_bool_vec(v: &Vec<bool>) -> (r: Vec<bool>)
    ensures
        r@ == v@,
{
    let mut r: Vec<bool> = Vec::new();
    let mut i: usize = 0;
    while i < v.len()
        invariant
            i <= v@.len(),
            r@ == v@.take(i as int),
        decreases v@.len() - i,
    {
        r.push(v[i]);
        proof {
            assert(v@.take(i + 1 as int) =~= v@.take(i as int).push(v@[i as int]));
        }
        i += 1;
    }
    proof {
        assert(v@.take(v@.len() as int) =~= v@);
    }
    r
}

/// Copies a byte vector.
fn copy_u8_vec(v: &Vec<u8>) -> (r: Vec<u8>)
    ensures
        r@ == v@,
{
    let mut r: Vec<u8> = Vec::new();
    let mut i: usize = 0;
    while i < v.len()
        invariant
            i <= v@.len(),
            r@ == v@.take(i as int),
        decreases v@.len() - i,
    {
        r.push(v[i]);
        proof {
            assert(v@.take(i + 1 as int) =~= v@.take(i as int).push(v@[i as int]));
        }
        i += 1;
    }
    proof {
        assert(v@.take(v@.len() as int) =~= v@);
    }
    r
}

/// Copies a string vector, character-exactly.
fn copy_string_vec(v: &Vec<String>) -> (r: Vec<String>)
    ensures
        strings_view(r@) == strings_view(v@),
        r@.len() == v@.len(),
{
    let mut r: Vec<String> = Vec::new();
    let mut i: usize = 0;
    while i < v.len()
        invariant
            i <= v@.len(),
            r@.len() == i,
            forall|j: int| 0 <= j < i ==> strings_view(r@)[j] == strings_view(v@)[j],
        decreases v@.len() - i,
    {
        r.push(v[i].clone());
        i += 1;
    }
    proof {
        assert(strings_view(r@) =~= strings_view(v@));
    }
    r
}

/// The store: every known topic's series, the display type labels, and
/// the generation counter that invalidates writers of torn-down sessions.
pub struct LogStore {
    pub data: Vec<(String, TopicData)>,
    pub topic_types: Vec<(String, String)>,
    pub generation: u32,
}

impl LogStore {
    /// The series stored under topic `n`, as a view.
    pub open spec fn topic(self, n: Seq<char>) -> Option<TopicDataView> {
        match alist_get(self.data@, n) {
            Some(td) => Some(td@),
            None => None,
        }
    }

    /// The explicit display label set for topic `n`, if any.
    pub open spec fn type_label(self, n: Seq<char>) -> Option<Seq<char>> {
        match alist_get(self.topic_types@, n) {
            Some(l) => Some(l@),
            None => None,
        }
    }

    /// Topic names are distinct and every series is well formed.
    pub open spec fn wf(self) -> bool {
        &&& alist_distinct(self.data@)
        &&& alist_distinct(self.topic_types@)
        &&& forall|i: int|
            0 <= i < self.data@.len() ==> (#[trigger] self.data@[i].1)@.wf()
    }

    /// A store with no topics, no labels, and generation 0.
    pub fn new() -> (s: Self)
        ensures
            s.wf(),
            s.data@ == Seq::<(String, TopicData)>::empty(),
            s.topic_types@ == Seq::<(String, String)>::empty(),
            s.generation == 0,
    {
        LogStore { data: Vec::new(), topic_types: Vec::new(), generation: 0 }
    }

    /// Overwrites the display type label for a topic; stored values are
    /// untouched.
    pub fn set_type(&mut self, topic: String, type_str: String)
        requires
            old(self).wf(),
        ensures
            final(self).wf(),
            final(self).data == old(self).data,
            final(self).generation == old(self).generation,
            final(self).type_label(topic@) == Some(type_str@),
            forall|n: Seq<char>|
                n != topic@ ==> final(self).type_label(n) == old(self).type_label(n),
    {
        let ghost old_types = self.topic_types@;
        match alist_find(&self.topic_types, topic.as_str()) {
            Some(i) => {
                let ghost p = (topic, type_str);
                let entry = &mut self.topic_types[i];
                entry.1 = type_str;
                proof {
                    assert(self.topic_types@ =~= old_types.update(
                        i as int,
                        (old_types[i as int].0, p.1),
                    ));
                    lemma_get_update(old_types, i as int, (old_types[i as int].0, p.1));
                }
            },
            None => {
                proof {
                    lemma_get_absent(old_types, topic@);
                }
                let ghost p = (topic, type_str);
                self.topic_types.push((topic, type_str));
                proof {
                    lemma_get_push(old_types, self.topic_types@.last());
                }
            },
        }
    }

    /// Empties the store and advances the generation, so that
    /// `check_generation` refuses every generation recorded before.
    pub fn clear(&mut self)
        ensures
            final(self).wf(),
            final(self).data@ == Seq::<(String, TopicData)>::empty(),
            final(self).topic_types@ == Seq::<(String, String)>::empty(),
            old(self).generation < u32::MAX ==> final(self).generation == old(self).generation
                + 1,
            old(self).generation == u32::MAX ==> final(self).generation == 0,
    {
        self.data.clear();
        self.topic_types.clear();
        if self.generation == u32::MAX {
            self.generation = 0;
        } else {
            self.generation = self.generation + 1;
        }
    }

    /// True exactly when the caller's recorded generation is still the
    /// store's current one.  A background writer polls this before every
    /// write and stops on a mismatch.
    pub fn check_generation(&self, generation: u32) -> (r: bool)
        ensures
            r == (generation == self.generation),
    {
        self.generation == generation
    }

    /// Records a double sample (as its IEEE-754 bit pattern) for `topic`
    /// at `timestamp`, fixing the topic's kind on first write, coalescing
    /// a repeated value, and dropping the write if the topic holds
    /// another kind.
    pub fn update_double(&mut self, topic: String, timestamp: u64, value: u64)
        requires
            old(self).wf(),
        ensures
            final(self).wf(),
            final(self).generation == old(self).generation,
            final(self).topic_types == old(self).topic_types,
            final(self).topic(topic@) == Some(
                spec_update(old(self).topic(topic@), timestamp, ValueView::Double(value)),
            ),
            forall|n: Seq<char>| n != topic@ ==> final(self).topic(n) == old(self).topic(n),
        {
        let ghost old_data = self.data@;
        match alist_find(&self.data, topic.as_str()) {
            Some(i) => {
                proof {
                    lemma_get_at_index(old_data, i as int);
                }
                let entry = &mut self.data[i];
                match &mut entry.1 {
                    TopicData::Double { timestamps, values } => {
                        let n = values.len();
                        let mut skip = false;
                        if n > 0 {
                            if values[n - 1] == value {
                                skip = true;
                            }
                        }
                        if !skip {
                            timestamps.push(timestamp);
                            values.push(value);
                        }
                    },
                    _ => {},
                }
                proof {
                    assert(self.data@ =~= old_data.update(i as int, self.data@[i as int]));
                    lemma_get_update(old_data, i as int, self.data@[i as int]);
                }
            },
            None => {
                proof {
                    lemma_get_absent(old_data, topic@);
                }
                let mut timestamps: Vec<u64> = Vec::new();
                timestamps.push(timestamp);
                let mut values: Vec<u64> = Vec::new();
                values.push(value);
                self.data.push((topic, TopicData::Double { timestamps, values }));
                proof {
                    lemma_get_push(old_data, self.data@.last());
                    assert(self.data@.last().1@.ts() =~= Seq::<u64>::empty().push(timestamp));
                    assert(self.data@ =~= old_data.push(self.data@.last()));
                }
            },
        }
    }

    /// Records a boolean sample for `topic` at `timestamp`; same regime
    /// as [`LogStore::update_double`].
    pub fn update_boolean(&mut self, topic: String, timestamp: u64, value: bool)
        requires
            old(self).wf(),
        ensures
            final(self).wf(),
            final(self).generation == old(self).generation,
            final(self).topic_types == old(self).topic_types,
            final(self).topic(topic@) == Some(
                spec_update(old(self).topic(topic@), timestamp, ValueView::Boolean(value)),
            ),
            forall|n: Seq<char>| n != topic@ ==> final(self).topic(n) == old(self).topic(n),
        {
        let ghost old_data = self.data@;
        match alist_find(&self.data, topic.as_str()) {
            Some(i) => {
                proof {
                    lemma_get_at_index(old_data, i as int);
                }
                let entry = &mut self.data[i];
                match &mut entry.1 {
                    TopicData::Boolean { timestamps, values } => {
                        let n = values.len();
                        let mut skip = false;
                        if n > 0 {
                            if values[n - 1] == value {
                                skip = true;
                            }
                        }
                        if !skip {
                            timestamps.push(timestamp);
                            values.push(value);
                        }
                    },
                    _ => {},
                }
                proof {
                    assert(self.data@ =~= old_data.update(i as int, self.data@[i as int]));
                    lemma_get_update(old_data, i as int, self.data@[i as int]);
                }
            },
            None => {
                proof {
                    lemma_get_absent(old_data, topic@);
                }
                let mut timestamps: Vec<u64> = Vec::new();
                timestamps.push(timestamp);
                let mut values: Vec<bool> = Vec::new();
                values.push(value);
                self.data.push((topic, TopicData::Boolean { timestamps, values }));
                proof {
                    lemma_get_push(old_data, self.data@.last());
                    assert(self.data@.last().1@.ts() =~= Seq::<u64>::empty().push(timestamp));
                    assert(self.data@ =~= old_data.push(self.data@.last()));
                }
            },
        }
    }

    /// Records a string sample for `topic` at `timestamp`; same regime as
    /// [`LogStore::update_double`].
    pub fn update_string(&mut self, topic: String, timestamp: u64, value: String)
        requires
            old(self).wf(),
        ensures
            final(self).wf(),
            final(self).generation == old(self).generation,
            final(self).topic_types == old(self).topic_types,
            final(self).topic(topic@) == Some(
                spec_update(old(self).topic(topic@), timestamp, ValueView::Text(value@)),
            ),
            forall|n: Seq<char>| n != topic@ ==> final(self).topic(n) == old(self).topic(n),
        {
        let ghost old_data = self.data@;
        match alist_find(&self.data, topic.as_str()) {
            Some(i) => {
                proof {
                    lemma_get_at_index(old_data, i as int);
                }
                let entry = &mut self.data[i];
                match &mut entry.1 {
                    TopicData::Text { timestamps, values } => {
                        let ghost old_vals = strings_view(values@);
                        let ghost v = value@;
                        let n = values.len();
                        let mut skip = false;
                        if n > 0 {
                            if values[n - 1] == value {
                                skip = true;
                                proof {
                                    assert(old_vals.last() == v);
                                }
                            }
                        }
                        if !skip {
                            timestamps.push(timestamp);
                            values.push(value);
                            proof {
                                assert(strings_view(values@) =~= old_vals.push(v));
                            }
                        }
                    },
                    _ => {},
                }
                proof {
                    assert(self.data@ =~= old_data.update(i as int, self.data@[i as int]));
                    lemma_get_update(old_data, i as int, self.data@[i as int]);
                }
            },
            None => {
                proof {
                    lemma_get_absent(old_data, topic@);
                }
                let mut timestamps: Vec<u64> = Vec::new();
                timestamps.push(timestamp);
                let mut values: Vec<String> = Vec::new();
                let ghost v = value@;
                values.push(value);
                self.data.push((topic, TopicData::Text { timestamps, values }));
                proof {
                    lemma_get_push(old_data, self.data@.last());
                    assert(self.data@.last().1@.ts() =~= Seq::<u64>::empty().push(timestamp));
                    assert(self.data@.last().1@ matches TopicDataView::Text { vals, .. }
                        && vals =~= Seq::<Seq<char>>::empty().push(v));
                    assert(self.data@ =~= old_data.push(self.data@.last()));
                }
            },
        }
    }

    /// Records a double-array sample (element bit patterns) for `topic`
    /// at `timestamp`; same regime as [`LogStore::update_double`].
    pub fn update_double_array(&mut self, topic: String, timestamp: u64, value: Vec<u64>)
        requires
            old(self).wf(),
        ensures
            final(self).wf(),
            final(self).generation == old(self).generation,
            final(self).topic_types == old(self).topic_types,
            final(self).topic(topic@) == Some(
                spec_update(old(self).topic(topic@), timestamp, ValueView::DoubleArray(value@)),
            ),
            forall|n: Seq<char>| n != topic@ ==> final(self).topic(n) == old(self).topic(n),
        {
        let ghost old_data = self.data@;
        match alist_find(&self.data, topic.as_str()) {
            Some(i) => {
                proof {
                    lemma_get_at_index(old_data, i as int);
                }
                let entry = &mut self.data[i];
                match &mut entry.1 {
                    TopicData::DoubleArray { timestamps, values } => {
                        let ghost old_vals = vecs_view(values@);
                        let ghost v = value@;
                        let n = values.len();
                        let mut skip = false;
                        if n > 0 {
                            if u64_vec_eq(&values[n - 1], &value) {
                                skip = true;
                                proof {
                                    assert(old_vals.last() == v);
                                }
                            } else {
                                proof {
                                    assert(old_vals.last() != v);
                                }
                            }
                        }
                        if !skip {
                            timestamps.push(timestamp);
                            values.push(value);
                            proof {
                                assert(vecs_view(values@) =~= old_vals.push(v));
                            }
                        }
                    },
                    _ => {},
                }
                proof {
                    assert(self.data@ =~= old_data.update(i as int, self.data@[i as int]));
                    lemma_get_update(old_data, i as int, self.data@[i as int]);
                }
            },
            None => {
                proof {
                    lemma_get_absent(old_data, topic@);
                }
                let mut timestamps: Vec<u64> = Vec::new();
                timestamps.push(timestamp);
                let mut values: Vec<Vec<u64>> = Vec::new();
                let ghost v = value@;
                values.push(value);
                self.data.push((topic, TopicData::DoubleArray { timestamps, values }));
                proof {
                    lemma_get_push(old_data, self.data@.last());
                    assert(self.data@.last().1@.ts() =~= Seq::<u64>::empty().push(timestamp));
                    assert(self.data@.last().1@ matches TopicDataView::DoubleArray { vals, .. }
                        && vals =~= Seq::<Seq<u64>>::empty().push(v));
                    assert(self.data@ =~= old_data.push(self.data@.last()));
                }
            },
        }
    }

    /// Records a boolean-array sample for `topic` at `timestamp`; same
    /// regime as [`LogStore::update_double`].
    pub fn update_boolean_array(&mut self, topic: String, timestamp: u64, value: Vec<bool>)
        requires
            old(self).wf(),
        ensures
            final(self).wf(),
            final(self).generation == old(self).generation,
            final(self).topic_types == old(self).topic_types,
            final(self).topic(topic@) == Some(
                spec_update(old(self).topic(topic@), timestamp, ValueView::BooleanArray(value@)),
            ),
            forall|n: Seq<char>| n != topic@ ==> final(self).topic(n) == old(self).topic(n),
        {
        let ghost old_data = self.data@;
        match alist_find(&self.data, topic.as_str()) {
            Some(i) => {
                proof {
                    lemma_get_at_index(old_data, i as int);
                }
                let entry = &mut self.data[i];
                match &mut entry.1 {
                    TopicData::BooleanArray { timestamps, values } => {
                        let ghost old_vals = vecs_view(values@);
                        let ghost v = value@;
                        let n = values.len();
                        let mut skip = false;
                        if n > 0 {
                            if bool_vec_eq(&values[n - 1], &value) {
                                skip = true;
                                proof {
                                    assert(old_vals.last() == v);
                                }
                            } else {
                                proof {
                                    assert(old_vals.last() != v);
                                }
                            }
                        }
                        if !skip {
                            timestamps.push(timestamp);
                            values.push(value);
                            proof {
                                assert(vecs_view(values@) =~= old_vals.push(v));
                            }
                        }
                    },
                    _ => {},
                }
                proof {
                    assert(self.data@ =~= old_data.update(i as int, self.data@[i as int]));
                    lemma_get_update(old_data, i as int, self.data@[i as int]);
                }
            },
            None => {
                proof {
                    lemma_get_absent(old_data, topic@);
                }
                let mut timestamps: Vec<u64> = Vec::new();
                timestamps.push(timestamp);
                let mut values: Vec<Vec<bool>> = Vec::new();
                let ghost v = value@;
                values.push(value);
                self.data.push((topic, TopicData::BooleanArray { timestamps, values }));
                proof {
                    lemma_get_push(old_data, self.data@.last());
                    assert(self.data@.last().1@.ts() =~= Seq::<u64>::empty().push(timestamp));
                    assert(self.data@.last().1@ matches TopicDataView::BooleanArray { vals, .. }
                        && vals =~= Seq::<Seq<bool>>::empty().push(v));
                    assert(self.data@ =~= old_data.push(self.data@.last()));
                }
            },
        }
    }

    /// Records a string-array sample for `topic` at `timestamp`; same
    /// regime as [`LogStore::update_double`].
    pub fn update_string_array(&mut self, topic: String, timestamp: u64, value: Vec<String>)
        requires
            old(self).wf(),
        ensures
            final(self).wf(),
            final(self).generation == old(self).generation,
            final(self).topic_types == old(self).topic_types,
            final(self).topic(topic@) == Some(
                spec_update(
                    old(self).topic(topic@),
                    timestamp,
                    ValueView::TextArray(strings_view(value@)),
                ),
            ),
            forall|n: Seq<char>| n != topic@ ==> final(self).topic(n) == old(self).topic(n),
        {
        let ghost old_data = self.data@;
        match alist_find(&self.data, topic.as_str()) {
            Some(i) => {
                proof {
                    lemma_get_at_index(old_data, i as int);
                }
                let entry = &mut self.data[i];
                match &mut entry.1 {
                    TopicData::TextArray { timestamps, values } => {
                        let ghost old_vals = string_vecs_view(values@);
                        let ghost v = strings_view(value@);
                        let n = values.len();
                        let mut skip = false;
                        if n > 0 {
                            if string_vec_eq(&values[n - 1], &value) {
                                skip = true;
                                proof {
                                    assert(old_vals.last() == v);
                                }
                            } else {
                                proof {
                                    assert(old_vals.last() != v);
                                }
                            }
                        }
                        if !skip {
                            timestamps.push(timestamp);
                            values.push(value);
                            proof {
                                assert(string_vecs_view(values@) =~= old_vals.push(v));
                            }
                        }
                    },
                    _ => {},
                }
                proof {
                    assert(self.data@ =~= old_data.update(i as int, self.data@[i as int]));
                    lemma_get_update(old_data, i as int, self.data@[i as int]);
                }
            },
            None => {
                proof {
                    lemma_get_absent(old_data, topic@);
                }
                let mut timestamps: Vec<u64> = Vec::new();
                timestamps.push(timestamp);
                let mut values: Vec<Vec<String>> = Vec::new();
                let ghost v = strings_view(value@);
                values.push(value);
                self.data.push((topic, TopicData::TextArray { timestamps, values }));
                proof {
                    lemma_get_push(old_data, self.data@.last());
                    assert(self.data@.last().1@.ts() =~= Seq::<u64>::empty().push(timestamp));
                    assert(self.data@.last().1@ matches TopicDataView::TextArray { vals, .. }
                        && vals =~= Seq::<Seq<Seq<char>>>::empty().push(v));
                    assert(self.data@ =~= old_data.push(self.data@.last()));
                }
            },
        }
    }

    /// Records a raw-bytes sample for `topic` at `timestamp`; same regime
    /// as [`LogStore::update_double`].
    pub fn update_raw(&mut self, topic: String, timestamp: u64, value: Vec<u8>)
        requires
            old(self).wf(),
        ensures
            final(self).wf(),
            final(self).generation == old(self).generation,
            final(self).topic_types == old(self).topic_types,
            final(self).topic(topic@) == Some(
                spec_update(old(self).topic(topic@), timestamp, ValueView::Raw(value@)),
            ),
            forall|n: Seq<char>| n != topic@ ==> final(self).topic(n) == old(self).topic(n),
        {
        let ghost old_data = self.data@;
        match alist_find(&self.data, topic.as_str()) {
            Some(i) => {
                proof {
                    lemma_get_at_index(old_data, i as int);
                }
                let entry = &mut self.data[i];
                match &mut entry.1 {
                    TopicData::Raw { timestamps, values } => {
                        let ghost old_vals = vecs_view(values@);
                        let ghost v = value@;
                        let n = values.len();
                        let mut skip = false;
                        if n > 0 {
                            if u8_vec_eq(&values[n - 1], &value) {
                                skip = true;
                                proof {
                                    assert(old_vals.last() == v);
                                }
                            } else {
                                proof {
                                    assert(old_vals.last() != v);
                                }
                            }
                        }
                        if !skip {
                            timestamps.push(timestamp);
                            values.push(value);
                            proof {
                                assert(vecs_view(values@) =~= old_vals.push(v));
                            }
                        }
                    },
                    _ => {},
                }
                proof {
                    assert(self.data@ =~= old_data.update(i as int, self.data@[i as int]));
                    lemma_get_update(old_data, i as int, self.data@[i as int]);
                }
            },
            None => {
                proof {
                    lemma_get_absent(old_data, topic@);
                }
                let mut timestamps: Vec<u64> = Vec::new();
                timestamps.push(timestamp);
                let mut values: Vec<Vec<u8>> = Vec::new();
                let ghost v = value@;
                values.push(value);
                self.data.push((topic, TopicData::Raw { timestamps, values }));
                proof {
                    lemma_get_push(old_data, self.data@.last());
                    assert(self.data@.last().1@.ts() =~= Seq::<u64>::empty().push(timestamp));
                    assert(self.data@.last().1@ matches TopicDataView::Raw { vals, .. }
                        && vals =~= Seq::<Seq<u8>>::empty().push(v));
                    assert(self.data@ =~= old_data.push(self.data@.last()));
                }
            },
        }
    }

    /// Binary search for the number of leading samples with timestamp at
    /// or before `query_time` (meaningful when the series is sorted).
    fn get_index(timestamps: &Vec<u64>, query_time: u64) -> (p: usize)
        ensures
            p <= timestamps@.len(),
            sorted(timestamps@) ==> p == partition(timestamps@, query_time),
    {
        let ghost ts = timestamps@;
        let mut lo: usize = 0;
        let mut hi: usize = timestamps.len();
        while lo < hi
            invariant
                lo <= hi <= ts.len(),
                ts == timestamps@,
                sorted(ts) ==> forall|i: int| 0 <= i < lo ==> ts[i] <= query_time,
                sorted(ts) ==> forall|i: int| hi <= i < ts.len() ==> ts[i] > query_time,
            decreases hi - lo,
        {
            let mid = lo + (hi - lo) / 2;
            if timestamps[mid] <= query_time {
                lo = mid + 1;
            } else {
                hi = mid;
            }
        }
        proof {
            if sorted(ts) {
                lemma_partition_characterizes(ts, query_time, lo as int);
            }
        }
        lo
    }

    /// The double (bit pattern) in effect at `query_time`, or `default`
    /// when the topic is absent, of another kind, empty, or starts later.
    pub fn get_double(&self, topic: &str, query_time: u64, default: u64) -> (r: u64)
        requires
            self.wf(),
        ensures
            match self.topic(topic@) {
                Some(TopicDataView::Double { ts, vals }) => sorted(ts) ==> r == step_lookup(
                    ts,
                    vals,
                    query_time,
                    default,
                ),
                _ => r == default,
            },
    {
        match alist_find(&self.data, topic) {
            Some(i) => {
                proof {
                    lemma_get_at_index(self.data@, i as int);
                    assert(self.data@[i as int].1@.wf());
                }
                match &self.data[i].1 {
                    TopicData::Double { timestamps, values } => {
                        if timestamps.len() == 0 {
                            return default;
                        }
                        let p = Self::get_index(timestamps, query_time);
                        if p == 0 {
                            default
                        } else {
                            values[p - 1]
                        }
                    },
                    _ => default,
                }
            },
            None => {
                proof {
                    lemma_get_absent(self.data@, topic@);
                }
                default
            },
        }
    }

    /// The boolean in effect at `query_time`, or `default`.
    pub fn get_boolean(&self, topic: &str, query_time: u64, default: bool) -> (r: bool)
        requires
            self.wf(),
        ensures
            match self.topic(topic@) {
                Some(TopicDataView::Boolean { ts, vals }) => sorted(ts) ==> r == step_lookup(
                    ts,
                    vals,
                    query_time,
                    default,
                ),
                _ => r == default,
            },
    {
        match alist_find(&self.data, topic) {
            Some(i) => {
                proof {
                    lemma_get_at_index(self.data@, i as int);
                    assert(self.data@[i as int].1@.wf());
                }
                match &self.data[i].1 {
                    TopicData::Boolean { timestamps, values } => {
                        if timestamps.len() == 0 {
                            return default;
                        }
                        let p = Self::get_index(timestamps, query_time);
                        if p == 0 {
                            default
                        } else {
                            values[p - 1]
                        }
                    },
                    _ => default,
                }
            },
            None => {
                proof {
                    lemma_get_absent(self.data@, topic@);
                }
                default
            },
        }
    }

    /// The whole boolean series of `topic`: its timestamps and values,
    /// copied, or `None` when the topic is absent or of another kind.
    pub fn get_boolean_series(&self, topic: &str) -> (r: Option<(Vec<u64>, Vec<bool>)>)
        requires
            self.wf(),
        ensures
            match self.topic(topic@) {
                Some(TopicDataView::Boolean { ts, vals }) => r matches Some(s) && s.0@ == ts
                    && s.1@ == vals,
                _ => r is None,
            },
    {
        match alist_find(&self.data, topic) {
            Some(i) => {
                proof {
                    lemma_get_at_index(self.data@, i as int);
                }
                match &self.data[i].1 {
                    TopicData::Boolean { timestamps, values } => Some(
                        (copy_u64_vec(timestamps), copy_bool_vec(values)),
                    ),
                    _ => None,
                }
            },
            None => {
                proof {
                    lemma_get_absent(self.data@, topic@);
                }
                None
            },
        }
    }

    /// The string in effect at `query_time`, or `default`.
    pub fn get_string(&self, topic: &str, query_time: u64, default: String) -> (r: String)
        requires
            self.wf(),
        ensures
            match self.topic(topic@) {
                Some(TopicDataView::Text { ts, vals }) => sorted(ts) ==> r@ == step_lookup(
                    ts,
                    vals,
                    query_time,
                    default@,
                ),
                _ => r@ == default@,
            },
    {
        match alist_find(&self.data, topic) {
            Some(i) => {
                proof {
                    lemma_get_at_index(self.data@, i as int);
                    assert(self.data@[i as int].1@.wf());
                }
                match &self.data[i].1 {
                    TopicData::Text { timestamps, values } => {
                        if timestamps.len() == 0 {
                            return default;
                        }
                        let p = Self::get_index(timestamps, query_time);
                        if p == 0 {
                            default
                        } else {
                            values[p - 1].clone()
                        }
                    },
                    _ => default,
                }
            },
            None => {
                proof {
                    lemma_get_absent(self.data@, topic@);
                }
                default
            },
        }
    }

    /// The double array (element bit patterns) in effect at `query_time`,
    /// or `default`.
    pub fn get_double_array(&self, topic: &str, query_time: u64, default: Vec<u64>) -> (r: Vec<
        u64,
    >)
        requires
            self.wf(),
        ensures
            match self.topic(topic@) {
                Some(TopicDataView::DoubleArray { ts, vals }) => sorted(ts) ==> r@ == step_lookup(
                    ts,
                    vals,
                    query_time,
                    default@,
                ),
                _ => r@ == default@,
            },
    {
        match alist_find(&self.data, topic) {
            Some(i) => {
                proof {
                    lemma_get_at_index(self.data@, i as int);
                    assert(self.data@[i as int].1@.wf());
                }
                match &self.data[i].1 {
                    TopicData::DoubleArray { timestamps, values } => {
                        if timestamps.len() == 0 {
                            return default;
                        }
                        let p = Self::get_index(timestamps, query_time);
                        if p == 0 {
                            default
                        } else {
                            copy_u64_vec(&values[p - 1])
                        }
                    },
                    _ => default,
                }
            },
            None => {
                proof {
                    lemma_get_absent(self.data@, topic@);
                }
                default
            },
        }
    }

    /// The boolean array in effect at `query_time`, or `default`.
    pub fn get_boolean_array(&self, topic: &str, query_time: u64, default: Vec<bool>) -> (r: Vec<
        bool,
    >)
        requires
            self.wf(),
        ensures
            match self.topic(topic@) {
                Some(TopicDataView::BooleanArray { ts, vals }) => sorted(ts) ==> r@ == step_lookup(
                    ts,
                    vals,
                    query_time,
                    default@,
                ),
                _ => r@ == default@,
            },
    {
        match alist_find(&self.data, topic) {
            Some(i) => {
                proof {
                    lemma_get_at_index(self.data@, i as int);
                    assert(self.data@[i as int].1@.wf());
                }
                match &self.data[i].1 {
                    TopicData::BooleanArray { timestamps, values } => {
                        if timestamps.len() == 0 {
                            return default;
                        }
                        let p = Self::get_index(timestamps, query_time);
                        if p == 0 {
                            default
                        } else {
                            copy_bool_vec(&values[p - 1])
                        }
                    },
                    _ => default,
                }
            },
            None => {
                proof {
                    lemma_get_absent(self.data@, topic@);
                }
                default
            },
        }
    }

    /// The string array in effect at `query_time`, or `default`.
    pub fn get_string_array(&self, topic: &str, query_time: u64, default: Vec<String>) -> (r: Vec<
        String,
    >)
        requires
            self.wf(),
        ensures
            match self.topic(topic@) {
                Some(TopicDataView::TextArray { ts, vals }) => sorted(ts) ==> strings_view(r@)
                    == step_lookup(ts, vals, query_time, strings_view(default@)),
                _ => strings_view(r@) == strings_view(default@),
            },
    {
        match alist_find(&self.data, topic) {
            Some(i) => {
                proof {
                    lemma_get_at_index(self.data@, i as int);
                    assert(self.data@[i as int].1@.wf());
                }
                match &self.data[i].1 {
                    TopicData::TextArray { timestamps, values } => {
                        if timestamps.len() == 0 {
                            return default;
                        }
                        let p = Self::get_index(timestamps, query_time);
                        if p == 0 {
                            default
                        } else {
                            copy_string_vec(&values[p - 1])
                        }
                    },
                    _ => default,
                }
            },
            None => {
                proof {
                    lemma_get_absent(self.data@, topic@);
                }
                default
            },
        }
    }

    /// The raw payload in effect at `query_time`, or `None` when the
    /// topic is absent, of another kind, empty, or starts later.
    pub fn get_raw(&self, topic: &str, query_time: u64) -> (r: Option<Vec<u8>>)
        requires
            self.wf(),
        ensures
            match self.topic(topic@) {
                Some(TopicDataView::Raw { ts, vals }) => sorted(ts) ==> (match r {
                    Some(v) => partition(ts, query_time) > 0 && v@ == vals[partition(
                        ts,
                        query_time,
                    ) - 1],
                    None => partition(ts, query_time) == 0,
                }),
                _ => r is None,
            },
    {
        match alist_find(&self.data, topic) {
            Some(i) => {
                proof {
                    lemma_get_at_index(self.data@, i as int);
                    assert(self.data@[i as int].1@.wf());
                }
                match &self.data[i].1 {
                    TopicData::Raw { timestamps, values } => {
                        if timestamps.len() == 0 {
                            return None;
                        }
                        let p = Self::get_index(timestamps, query_time);
                        if p == 0 {
                            None
                        } else {
                            Some(copy_u8_vec(&values[p - 1]))
                        }
                    },
                    _ => None,
                }
            },
            None => {
                proof {
                    lemma_get_absent(self.data@, topic@);
                }
                None
            },
        }
    }

    /// Whether any series is stored under `topic`.
    pub fn has_topic(&self, topic: &str) -> (r: bool)
        ensures
            r == (self.topic(topic@) is Some),
    {
        match alist_find(&self.data, topic) {
            Some(i) => {
                proof {
                    lemma_get_at_index(self.data@, i as int);
                }
                true
            },
            None => {
                proof {
                    lemma_get_absent(self.data@, topic@);
                }
                false
            },
        }
    }

    /// The label shown for the topic at index `i` of the store: the
    /// explicit `set_type` label if one was set, else a label derived
    /// from the value kind.
    pub open spec fn spec_topic_label(self, i: int) -> Seq<char> {
        match self.type_label(self.data@[i].0@) {
            Some(l) => l,
            None => kind_label(self.data@[i].1@),
        }
    }

    /// Every stored topic's name with its display label.
    pub fn get_topics_info(&self) -> (r: Vec<(String, String)>)
        ensures
            r@.len() == self.data@.len(),
            forall|i: int|
                0 <= i < r@.len() ==> (#[trigger] r@[i]).0@ == self.data@[i].0@ && r@[i].1@
                    == self.spec_topic_label(i),
    {
        let mut r: Vec<(String, String)> = Vec::new();
        let mut i: usize = 0;
        while i < self.data.len()
            invariant
                i <= self.data@.len(),
                r@.len() == i,
                forall|j: int|
                    0 <= j < i ==> (#[trigger] r@[j]).0@ == self.data@[j].0@ && r@[j].1@
                        == self.spec_topic_label(j),
            decreases self.data@.len() - i,
        {
            let name = self.data[i].0.clone();
            let label = match alist_find(&self.topic_types, name.as_str()) {
                Some(j) => {
                    proof {
                        lemma_get_at_index(self.topic_types@, j as int);
                    }
                    self.topic_types[j].1.clone()
                },
                None => {
                    proof {
                        lemma_get_absent(self.topic_types@, name@);
                    }
                    match &self.data[i].1 {
                        TopicData::Double { .. } => String::from_str("double"),
                        TopicData::Boolean { .. } => String::from_str("boolean"),
                        TopicData::Text { .. } => String::from_str("string"),
                        TopicData::DoubleArray { .. } => String::from_str("double[]"),
                        TopicData::BooleanArray { .. } => String::from_str("boolean[]"),
                        TopicData::TextArray { .. } => String::from_str("string[]"),
                        TopicData::Raw { .. } => String::from_str("raw"),
                    }
                },
            };
            r.push((name, label));
            i += 1;
        }
        r
    }

    /// The smallest first timestamp over all topics, or 0 when the store
    /// holds no data.
    pub fn get_start_timestamp(&self) -> (r: u64)
        ensures
            r == (if spec_min_first(self.data@) == u64::MAX {
                0u64
            } else {
                spec_min_first(self.data@)
            }),
    {
        let ghost entries = self.data@;
        proof {
            assert(entries.skip(0) =~= entries);
        }
        let mut min_ts: u64 = u64::MAX;
        let mut i: usize = 0;
        while i < self.data.len()
            invariant
                i <= entries.len(),
                entries == self.data@,
                min_u64(min_ts, spec_min_first(entries.skip(i as int))) == spec_min_first(
                    entries,
                ),
            decreases entries.len() - i,
        {
            proof {
                assert(entries.skip(i as int).drop_first() =~= entries.skip(i + 1 as int));
                assert(entries.skip(i as int)[0] == entries[i as int]);
            }
            let first = self.data[i].1.first_timestamp_or_max();
            if first < min_ts {
                min_ts = first;
            }
            i += 1;
        }
        proof {
            assert(entries.skip(entries.len() as int) =~= Seq::<(String, TopicData)>::empty());
        }
        if min_ts == u64::MAX {
            0
        } else {
            min_ts
        }
    }

    /// The largest last timestamp over all topics, or 0 when the store
    /// holds no data.
    pub fn get_last_timestamp(&self) -> (r: u64)
        ensures
            r == spec_max_last(self.data@),
    {
        let ghost entries = self.data@;
        proof {
            assert(entries.skip(0) =~= entries);
        }
        let mut max_ts: u64 = 0;
        let mut i: usize = 0;
        while i < self.data.len()
            invariant
                i <= entries.len(),
                entries == self.data@,
                max_u64(max_ts, spec_max_last(entries.skip(i as int))) == spec_max_last(entries),
            decreases entries.len() - i,
        {
            proof {
                assert(entries.skip(i as int).drop_first() =~= entries.skip(i + 1 as int));
                assert(entries.skip(i as int)[0] == entries[i as int]);
            }
            let last = self.data[i].1.last_timestamp();
            if last > max_ts {
                max_ts = last;
            }
            i += 1;
        }
        proof {
            assert(entries.skip(entries.len() as int) =~= Seq::<(String, TopicData)>::empty());
        }
        max_ts
    }

    /// The value in effect at `query_time` for a topic of any kind, with
    /// each kind's natural default (zero, `false`, empty) when the series
    /// is empty or starts after `query_time`.  `None` when the topic is
    /// absent, or holds raw bytes with nothing at `query_time`.
    pub fn get_value(&self, topic: &str, query_time: u64) -> (r: Option<TopicValue>)
        requires
            self.wf(),
        ensures
            match self.topic(topic@) {
                Some(TopicDataView::Double { ts, vals }) => sorted(ts) ==> (r matches Some(
                    TopicValue::Double(x),
                ) && x == step_lookup(ts, vals, query_time, 0u64)),
                Some(TopicDataView::Boolean { ts, vals }) => sorted(ts) ==> (r matches Some(
                    TopicValue::Boolean(x),
                ) && x == step_lookup(ts, vals, query_time, false)),
                Some(TopicDataView::Text { ts, vals }) => sorted(ts) ==> (r matches Some(
                    TopicValue::Text(x),
                ) && x@ == step_lookup(ts, vals, query_time, Seq::<char>::empty())),
                Some(TopicDataView::DoubleArray { ts, vals }) => sorted(ts) ==> (r matches Some(
                    TopicValue::DoubleArray(x),
                ) && x@ == step_lookup(ts, vals, query_time, Seq::<u64>::empty())),
                Some(TopicDataView::BooleanArray { ts, vals }) => sorted(ts) ==> (r matches Some(
                    TopicValue::BooleanArray(x),
                ) && x@ == step_lookup(ts, vals, query_time, Seq::<bool>::empty())),
                Some(TopicDataView::TextArray { ts, vals }) => sorted(ts) ==> (r matches Some(
                    TopicValue::TextArray(x),
                ) && strings_view(x@) == step_lookup(
                    ts,
                    vals,
                    query_time,
                    Seq::<Seq<char>>::empty(),
                )),
                Some(TopicDataView::Raw { ts, vals }) => sorted(ts) ==> (match r {
                    Some(TopicValue::Raw(v)) => partition(ts, query_time) > 0 && v@ == vals[
                        partition(ts, query_time) - 1],
                    _ => r is None && partition(ts, query_time) == 0,
                }),
                None => r is None,
            },
    {
        match alist_find(&self.data, topic) {
            Some(i) => {
                proof {
                    lemma_get_at_index(self.data@, i as int);
                }
                match &self.data[i].1 {
                    TopicData::Double { .. } => Some(
                        TopicValue::Double(self.get_double(topic, query_time, 0)),
                    ),
                    TopicData::Boolean { .. } => Some(
                        TopicValue::Boolean(self.get_boolean(topic, query_time, false)),
                    ),
                    TopicData::Text { .. } => Some(
                        TopicValue::Text(self.get_string(topic, query_time, String::new())),
                    ),
                    TopicData::DoubleArray { .. } => Some(
                        TopicValue::DoubleArray(self.get_double_array(topic, query_time,
                            Vec::new())),
                    ),
                    TopicData::BooleanArray { .. } => Some(
                        TopicValue::BooleanArray(self.get_boolean_array(topic, query_time,
                            Vec::new())),
                    ),
                    TopicData::TextArray { .. } => {
                        proof {
                            assert(strings_view(Seq::<String>::empty()) =~= Seq::<
                                Seq<char>,
                            >::empty());
                        }
                        Some(
                            TopicValue::TextArray(self.get_string_array(topic, query_time,
                                Vec::new())),
                        )
                    },
                    TopicData::Raw { .. } => {
                        match self.get_raw(topic, query_time) {
                            Some(v) => Some(TopicValue::Raw(v)),
                            None => None,
                        }
                    },
                }
            },
            None => {
                proof {
                    lemma_get_absent(self.data@, topic@);
                }
                None
            },
        }
    }

    /// Routes a run-time-kinded value to the update operation of its
    /// kind; the effect on the store is exactly that operation's.
    pub fn apply_update(&mut self, topic: String, timestamp: u64, value: TopicValue)
        requires
            old(self).wf(),
        ensures
            final(self).wf(),
            final(self).generation == old(self).generation,
            final(self).topic_types == old(self).topic_types,
            final(self).topic(topic@) == Some(
                spec_update(old(self).topic(topic@), timestamp, value@),
            ),
            forall|n: Seq<char>| n != topic@ ==> final(self).topic(n) == old(self).topic(n),
    {
        match value {
            TopicValue::Double(v) => self.update_double(topic, timestamp, v),
            TopicValue::Boolean(v) => self.update_boolean(topic, timestamp, v),
            TopicValue::Text(v) => self.update_string(topic, timestamp, v),
            TopicValue::DoubleArray(v) => self.update_double_array(topic, timestamp, v),
            TopicValue::BooleanArray(v) => self.update_boolean_array(topic, timestamp, v),
            TopicValue::TextArray(v) => self.update_string_array(topic, timestamp, v),
            TopicValue::Raw(v) => self.update_raw(topic, timestamp, v),
        }
    }
}

/// What one update does to the whole topic map: the updated topic's
/// series is replaced by [`spec_update`]'s result, everything else is
/// untouched.
pub open spec fn spec_update_map(
    m: Map<Seq<char>, TopicDataView>,
    name: Seq<char>,
    t: u64,
    v: ValueView,
) -> Map<Seq<char>, TopicDataView> {
    m.insert(
        name,
        spec_update(
            if m.contains_key(name) {
                Some(m[name])
            } else {
                None
            },
            t,
            v,
        ),
    )
}

impl LogStore {
    /// The whole store as a map from topic name to series view.
    pub open spec fn topics_map(self) -> Map<Seq<char>, TopicDataView> {
        Map::new(|n: Seq<char>| self.topic(n) is Some, |n: Seq<char>| self.topic(n)->Some_0)
    }
}

/// Bridges an update operation's pointwise contract to the map level.
pub proof fn lemma_topics_map_update(
    pre: LogStore,
    post: LogStore,
    name: Seq<char>,
    t: u64,
    v: ValueView,
)
    requires
        post.topic(name) == Some(spec_update(pre.topic(name), t, v)),
        forall|n: Seq<char>| n != name ==> post.topic(n) == pre.topic(n),
    ensures
        post.topics_map() == spec_update_map(pre.topics_map(), name, t, v),
{
    assert(post.topics_map() =~= spec_update_map(pre.topics_map(), name, t, v));
}

/// Timestamps in strictly increasing order.
pub open spec fn strictly_increasing(ts: Seq<u64>) -> bool {
    forall|i: int, j: int| 0 <= i < j < ts.len() ==> ts[i] < ts[j]
}

/// The timestamps of a call sequence are strictly increasing.
pub open spec fn calls_strictly_increasing<T>(calls: Seq<(u64, T)>) -> bool {
    forall|i: int, j: int| 0 <= i < j < calls.len() ==> calls[i].0 < calls[j].0
}

/// The series left by a sequence of same-kind update calls, each applied
/// with write coalescing.
pub open spec fn apply_calls<T>(ts: Seq<u64>, vals: Seq<T>, calls: Seq<(u64, T)>) -> (
    Seq<u64>,
    Seq<T>,
)
    decreases calls.len(),
{
    if calls.len() == 0 {
        (ts, vals)
    } else {
        let next = coalesced_push(ts, vals, calls[0].0, calls[0].1);
        apply_calls(next.0, next.1, calls.drop_first())
    }
}

/// The value-changing calls of a sequence: those whose value differs
/// from the value most recently kept (`last` on entry).
pub open spec fn changing_calls<T>(last: Option<T>, calls: Seq<(u64, T)>) -> Seq<(u64, T)>
    decreases calls.len(),
{
    if calls.len() == 0 {
        Seq::empty()
    } else if last == Some(calls[0].1) {
        changing_calls(last, calls.drop_first())
    } else {
        seq![calls[0]] + changing_calls(Some(calls[0].1), calls.drop_first())
    }
}

/// The last stored value, as coalescing sees it.
pub open spec fn last_of<T>(vals: Seq<T>) -> Option<T> {
    if vals.len() > 0 {
        Some(vals.last())
    } else {
        None
    }
}

/// Write-coalescing law: a sequence of update calls appends exactly its
/// value-changing calls, timestamps and values alike.
pub proof fn lemma_apply_calls_coalesce<T>(ts: Seq<u64>, vals: Seq<T>, calls: Seq<(u64, T)>)
    requires
        ts.len() == vals.len(),
    ensures
        apply_calls(ts, vals, calls).0 == ts + changing_calls(last_of(vals), calls).map_values(
            |c: (u64, T)| c.0,
        ),
        apply_calls(ts, vals, calls).1 == vals + changing_calls(last_of(vals), calls).map_values(
            |c: (u64, T)| c.1,
        ),
    decreases calls.len(),
{
    let kept = changing_calls(last_of(vals), calls);
    if calls.len() == 0 {
        assert(ts + kept.map_values(|c: (u64, T)| c.0) =~= ts);
        assert(vals + kept.map_values(|c: (u64, T)| c.1) =~= vals);
    } else {
        let t0 = calls[0].0;
        let v0 = calls[0].1;
        let rest = calls.drop_first();
        if vals.len() > 0 && vals.last() == v0 {
            lemma_apply_calls_coalesce(ts, vals, rest);
        } else {
            let ts1 = ts.push(t0);
            let vals1 = vals.push(v0);
            lemma_apply_calls_coalesce(ts1, vals1, rest);
            let kept1 = changing_calls(Some(v0), rest);
            assert(kept =~= seq![(t0, v0)] + kept1);
            assert(ts + kept.map_values(|c: (u64, T)| c.0) =~= ts1 + kept1.map_values(
                |c: (u64, T)| c.0,
            ));
            assert(vals + kept.map_values(|c: (u64, T)| c.1) =~= vals1 + kept1.map_values(
                |c: (u64, T)| c.1,
            ));
        }
    }
}

/// Write-coalescing law from an empty topic: the stored series length
/// equals the number of value-changing calls.
pub proof fn lemma_series_length_is_change_count<T>(calls: Seq<(u64, T)>)
    ensures
        apply_calls(Seq::<u64>::empty(), Seq::<T>::empty(), calls).0.len() == changing_calls(
            Option::<T>::None,
            calls,
        ).len(),
        apply_calls(Seq::<u64>::empty(), Seq::<T>::empty(), calls).1.len() == changing_calls(
            Option::<T>::None,
            calls,
        ).len(),
{
    lemma_apply_calls_coalesce(Seq::<u64>::empty(), Seq::<T>::empty(), calls);
}

/// Update calls with strictly increasing timestamps, all later than the
/// series so far, leave the stored timestamps strictly increasing.
pub proof fn lemma_apply_calls_sorted<T>(ts: Seq<u64>, vals: Seq<T>, calls: Seq<(u64, T)>)
    requires
        ts.len() == vals.len(),
        strictly_increasing(ts),
        calls_strictly_increasing(calls),
        forall|k: int| 0 <= k < calls.len() && ts.len() > 0 ==> (#[trigger] calls[k]).0 > ts.last(),
    ensures
        strictly_increasing(apply_calls(ts, vals, calls).0),
    decreases calls.len(),
{
    if calls.len() > 0 {
        let t0 = calls[0].0;
        let v0 = calls[0].1;
        let rest = calls.drop_first();
        assert(forall|k: int| 0 <= k < rest.len() ==> (#[trigger] rest[k]) == calls[k + 1]);
        if vals.len() > 0 && vals.last() == v0 {
            lemma_apply_calls_sorted(ts, vals, rest);
        } else {
            let ts1 = ts.push(t0);
            let vals1 = vals.push(v0);
            assert(ts1.last() == t0);
            assert forall|i: int, j: int| 0 <= i < j < ts1.len() implies ts1[i] < ts1[j] by {
                if j < ts.len() {
                    assert(ts[i] < ts[j]);
                } else if ts.len() > 0 {
                    assert(calls[0].0 > ts.last());
                    if i < ts.len() - 1 {
                        assert(ts[i] < ts[ts.len() - 1]);
                    }
                }
            }
            lemma_apply_calls_sorted(ts1, vals1, rest);
        }
    }
}

/// Step-function law: at any query time at or after a stored change and
/// before the next one, the lookup returns that change's value.
pub proof fn lemma_step_function<T>(ts: Seq<u64>, vals: Seq<T>, q: u64, default: T, j: int)
    requires
        sorted(ts),
        ts.len() == vals.len(),
        0 <= j < ts.len(),
        ts[j] <= q,
        j == ts.len() - 1 || q < ts[j + 1],
    ensures
        step_lookup(ts, vals, q, default) == vals[j],
{
    assert forall|i: int| 0 <= i < j + 1 implies ts[i] <= q by {
        assert(ts[i] <= ts[j]);
    }
    assert forall|i: int| j + 1 <= i < ts.len() implies ts[i] > q by {
        assert(ts[j + 1] <= ts[i]);
    }
    lemma_partition_characterizes(ts, q, j + 1);
}

/// A query before the first stored sample returns the caller's default.
pub proof fn lemma_default_before_first<T>(ts: Seq<u64>, vals: Seq<T>, q: u64, default: T)
    requires
        sorted(ts),
        ts.len() > 0 ==> q < ts[0],
    ensures
        step_lookup(ts, vals, q, default) == default,
{
    lemma_partition_bounds(ts, q);
    if partition(ts, q) > 0 {
        assert(ts[0] <= q);
    }
}

/// Clearing is idempotent in observable state: any two cleared stores
/// hold no topic and no label, whatever their generations.
pub proof fn lemma_clear_idempotent(s1: LogStore, s2: LogStore)
    requires
        s1.data@.len() == 0,
        s1.topic_types@.len() == 0,
        s2.data@.len() == 0,
        s2.topic_types@.len() == 0,
    ensures
        forall|n: Seq<char>| s1.topic(n) == s2.topic(n) && s1.topic(n) is None,
        forall|n: Seq<char>| s1.type_label(n) == s2.type_label(n) && s1.type_label(n) is None,
{
}

/// After a clear, `check_generation` refuses every generation recorded
/// before it (generations recorded earlier are at most the cleared
/// store's, and the clear moved past it).
pub proof fn lemma_clear_invalidates_generation(before: LogStore, after: LogStore, g: u32)
    requires
        g <= before.generation,
        before.generation < u32::MAX,
        after.generation == before.generation + 1,
    ensures
        g != after.generation,
{
}

} // verus!
