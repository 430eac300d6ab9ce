//! The data model of the pipeline: the JSON shapes the extractor
//! distinguishes, the extracted record, the error taxonomy and the messages
//! that flow from the workers to the sink writer.

use vstd::prelude::*;

verus! {

/// A JSON value as this library models it.  Only the shapes the extractor
/// reads are distinguished; numbers, booleans and null all fall into
/// `Other`, since no rule of the schema ever looks inside them.
///
/// An object is an ordered list of key/value pairs, as the dump supplies
/// them; a lookup takes the first entry with a matching key.
#[derive(Debug)]
pub enum Json {
    Str(String),
    Obj(Vec<(String, Json)>),
    Arr(Vec<Json>),
    Other,
}

/// The value under the first entry of `entries` whose key reads `key`.
pub open spec fn lookup(entries: Seq<(String, Json)>, key: Seq<char>) -> Option<Json>
    decreases entries.len(),
{
    if entries.len() == 0 {
        None
    } else if entries[0].0@ == key {
        Some(entries[0].1)
    } else {
        lookup(entries.drop_first(), key)
    }
}

proof fn lemma_lookup_skip(entries: Seq<(String, Json)>, key: Seq<char>, i: int)
    requires
        0 <= i <= entries.len(),
        forall|j: int| 0 <= j < i ==> entries[j].0@ != key,
    ensures
        lookup(entries, key) == lookup(entries.skip(i), key),
    decreases i,
{
    if i == 0 {
        assert(entries.skip(0) =~= entries);
    } else {
        assert(entries[0].0@ != key);
        let rest = entries.drop_first();
        assert(forall|j: int| 0 <= j < i - 1 ==> rest[j].0@ != key);
        lemma_lookup_skip(rest, key, i - 1);
        assert(rest.skip(i - 1) =~= entries.skip(i));
    }
}

/// Relies on str's `==` (core's `PartialEq` for `str`): character-for-character
/// equality of the two slices.
#[verifier::external_body]
pub fn str_eq(a: &str, b: &str) -> (r: bool)
    ensures
        r == (a@ == b@),
{
    a == b
}

/// Looks a key up in an object, returning the first entry with that key.
pub fn obj_get<'a>(entries: &'a Vec<(String, Json)>, key: &str) -> (r: Option<&'a Json>)
    ensures
        match r {
            Some(v) => lookup(entries@, key@) == Some(*v),
            None => lookup(entries@, key@) is None,
        },
{
    let mut i: usize = 0;
    while i < entries.len()
        invariant
            i <= entries.len(),
            forall|j: int| 0 <= j < i ==> entries@[j].0@ != key@,
        decreases entries.len() - i,
    {
        if str_eq(entries[i].0.as_str(), key) {
            proof {
                lemma_lookup_skip(entries@, key@, i as int);
                assert(entries@.skip(i as int)[0] == entries@[i as int]);
            }
            return Some(&entries[i].1);
        }
        i += 1;
    }
    proof {
        lemma_lookup_skip(entries@, key@, entries@.len() as int);
        assert(entries@.skip(entries@.len() as int) =~= Seq::<(String, Json)>::empty());
    }
    None
}

/// One extracted record: the identifier and five association lists, each
/// keyed by a language code or a property identifier.  Association lists
/// stand in for maps so that iteration order is the insertion order and the
/// output rows are deterministic.
#[derive(Debug, PartialEq)]
pub struct Data {
    pub qid: String,
    pub labels: Vec<(String, Vec<String>)>,
    pub description: Vec<(String, String)>,
    pub properties: Vec<(String, Vec<String>)>,
    pub data_props: Vec<(String, Vec<Vec<String>>)>,
    pub wiki: Vec<(String, String)>,
}

/// The mathematical shape of a record: every string a sequence of
/// characters, every association list a sequence of pairs.
pub struct DataModel {
    pub qid: Seq<char>,
    pub labels: Seq<(Seq<char>, Seq<Seq<char>>)>,
    pub description: Seq<(Seq<char>, Seq<char>)>,
    pub properties: Seq<(Seq<char>, Seq<Seq<char>>)>,
    pub data_props: Seq<(Seq<char>, Seq<Seq<Seq<char>>>)>,
    pub wiki: Seq<(Seq<char>, Seq<char>)>,
}

impl View for Data {
    type V = DataModel;

    open spec fn view(&self) -> DataModel {
        DataModel {
            qid: self.qid@,
            labels: self.labels.deep_view(),
            description: self.description.deep_view(),
            properties: self.properties.deep_view(),
            data_props: self.data_props.deep_view(),
            wiki: self.wiki.deep_view(),
        }
    }
}

/// Why one input line yielded no record.  Both kinds carry the 1-based
/// number of the line they arose on.
#[derive(Debug, PartialEq)]
pub enum ExtractionError {
    /// The line is not valid JSON.
    MalformedInput(usize),
    /// The line is valid JSON but does not match the expected record shape;
    /// the string names the field or expectation that failed.
    SchemaViolation(String, usize),
}

pub enum ErrModel {
    MalformedInput(int),
    SchemaViolation(Seq<char>, int),
}

impl View for ExtractionError {
    type V = ErrModel;

    open spec fn view(&self) -> ErrModel {
        match self {
            ExtractionError::MalformedInput(n) => ErrModel::MalformedInput(*n as int),
            ExtractionError::SchemaViolation(d, n) => ErrModel::SchemaViolation(d@, *n as int),
        }
    }
}

/// What a worker sends to the sink writer: an extracted record, a
/// per-record error, or the end-of-stream sentinel that follows every other
/// message of the run.
#[derive(Debug, PartialEq)]
pub enum Message {
    Data(Data),
    Error(ExtractionError),
    End,
}

pub enum MsgModel {
    Data(DataModel),
    Error(ErrModel),
    End,
}

impl View for Message {
    type V = MsgModel;

    open spec fn view(&self) -> MsgModel {
        match self {
            Message::Data(d) => MsgModel::Data(d@),
            Message::Error(e) => MsgModel::Error(e@),
            Message::End => MsgModel::End,
        }
    }
}

/// `m` with `v` stored under `k`: the first entry keyed `k` is overwritten,
/// or a new entry is appended when none exists.
pub open spec fn set_entry<V>(m: Seq<(Seq<char>, V)>, k: Seq<char>, v: V) -> Seq<(Seq<char>, V)>
    decreases m.len(),
{
    if m.len() == 0 {
        seq![(k, v)]
    } else if m[0].0 == k {
        seq![(k, v)] + m.drop_first()
    } else {
        seq![m[0]] + set_entry(m.drop_first(), k, v)
    }
}

/// `m` with `v` appended to the list under `k`: the first entry keyed `k`
/// grows by one element, or a new entry holding only `v` is appended.
pub open spec fn push_entry<V>(m: Seq<(Seq<char>, Seq<V>)>, k: Seq<char>, v: V) -> Seq<
    (Seq<char>, Seq<V>),
>
    decreases m.len(),
{
    if m.len() == 0 {
        seq![(k, seq![v])]
    } else if m[0].0 == k {
        seq![(k, m[0].1.push(v))] + m.drop_first()
    } else {
        seq![m[0]] + push_entry(m.drop_first(), k, v)
    }
}

/// Some entry of `m` has key `x`.
pub open spec fn has_key<V>(m: Seq<(Seq<char>, V)>, x: Seq<char>) -> bool {
    exists|i: int| 0 <= i < m.len() && (#[trigger] m[i]).0 == x
}

/// No two entries of the association list share a key.
pub open spec fn distinct_keys<V>(m: Seq<(Seq<char>, V)>) -> bool {
    forall|i: int, j: int| 0 <= i < j < m.len() ==> (#[trigger] m[i]).0 != (#[trigger] m[j]).0
}

/// Overwriting or adding an entry keeps the keys distinct, and adds at
/// most the new key to the key set.
pub proof fn lemma_set_entry_distinct<V>(m: Seq<(Seq<char>, V)>, k: Seq<char>, v: V)
    requires
        distinct_keys(m),
    ensures
        distinct_keys(set_entry(m, k, v)),
        forall|x: Seq<char>| #[trigger] has_key(set_entry(m, k, v), x) <==> (has_key(m, x) || x
            == k),
{
    let r = set_entry(m, k, v);
    if has_key(m, k) {
        let i = choose|i: int| 0 <= i < m.len() && (#[trigger] m[i]).0 == k;
        assert(forall|j: int| 0 <= j < i ==> (#[trigger] m[j]).0 != k);
        lemma_set_entry_found(m, k, v, i);
        assert(r =~= m.update(i, (k, v)));
        assert forall|a: int, b: int| 0 <= a < b < r.len() implies (#[trigger] r[a]).0 != (
        #[trigger] r[b]).0 by {
            assert(r[a].0 == m[a].0);
            assert(r[b].0 == m[b].0);
        }
        assert forall|x: Seq<char>| #[trigger] has_key(r, x) implies (has_key(m, x) || x == k) by {
            let w = choose|w: int| 0 <= w < r.len() && (#[trigger] r[w]).0 == x;
            assert(m[w].0 == x);
        }
        assert forall|x: Seq<char>| has_key(m, x) || x == k implies #[trigger] has_key(r, x) by {
            if x == k {
                assert(r[i].0 == x);
            } else {
                let w = choose|w: int| 0 <= w < m.len() && (#[trigger] m[w]).0 == x;
                assert(r[w].0 == x);
            }
        }
    } else {
        assert(forall|j: int| 0 <= j < m.len() ==> (#[trigger] m[j]).0 != k);
        lemma_set_entry_missing(m, k, v);
        assert(r =~= m.push((k, v)));
        assert forall|a: int, b: int| 0 <= a < b < r.len() implies (#[trigger] r[a]).0 != (
        #[trigger] r[b]).0 by {
            if b < m.len() {
            } else {
                assert(r[b].0 == k);
                assert(r[a].0 == m[a].0);
            }
        }
        assert forall|x: Seq<char>| #[trigger] has_key(r, x) implies (has_key(m, x) || x == k) by {
            let w = choose|w: int| 0 <= w < r.len() && (#[trigger] r[w]).0 == x;
            if w < m.len() {
                assert(m[w].0 == x);
            }
        }
        assert forall|x: Seq<char>| has_key(m, x) || x == k implies #[trigger] has_key(r, x) by {
            if x == k {
                assert(r[m.len() as int].0 == x);
            } else {
                let w = choose|w: int| 0 <= w < m.len() && (#[trigger] m[w]).0 == x;
                assert(r[w].0 == x);
            }
        }
    }
}

/// Appending to an entry's list keeps the keys distinct, and adds at most
/// the new key to the key set.
pub proof fn lemma_push_entry_distinct<V>(m: Seq<(Seq<char>, Seq<V>)>, k: Seq<char>, v: V)
    requires
        distinct_keys(m),
    ensures
        distinct_keys(push_entry(m, k, v)),
        forall|x: Seq<char>| #[trigger] has_key(push_entry(m, k, v), x) <==> (has_key(m, x) || x
            == k),
{
    let r = push_entry(m, k, v);
    if has_key(m, k) {
        let i = choose|i: int| 0 <= i < m.len() && (#[trigger] m[i]).0 == k;
        assert(forall|j: int| 0 <= j < i ==> (#[trigger] m[j]).0 != k);
        lemma_push_entry_found(m, k, v, i);
        assert(r =~= m.update(i, (k, m[i].1.push(v))));
        assert forall|a: int, b: int| 0 <= a < b < r.len() implies (#[trigger] r[a]).0 != (
        #[trigger] r[b]).0 by {
            assert(r[a].0 == m[a].0);
            assert(r[b].0 == m[b].0);
        }
        assert forall|x: Seq<char>| #[trigger] has_key(r, x) implies (has_key(m, x) || x == k) by {
            let w = choose|w: int| 0 <= w < r.len() && (#[trigger] r[w]).0 == x;
            assert(m[w].0 == x);
        }
        assert forall|x: Seq<char>| has_key(m, x) || x == k implies #[trigger] has_key(r, x) by {
            if x == k {
                assert(r[i].0 == x);
            } else {
                let w = choose|w: int| 0 <= w < m.len() && (#[trigger] m[w]).0 == x;
                assert(r[w].0 == x);
            }
        }
    } else {
        assert(forall|j: int| 0 <= j < m.len() ==> (#[trigger] m[j]).0 != k);
        lemma_push_entry_missing(m, k, v);
        assert(r =~= m.push((k, seq![v])));
        assert forall|a: int, b: int| 0 <= a < b < r.len() implies (#[trigger] r[a]).0 != (
        #[trigger] r[b]).0 by {
            if b < m.len() {
            } else {
                assert(r[b].0 == k);
                assert(r[a].0 == m[a].0);
            }
        }
        assert forall|x: Seq<char>| #[trigger] has_key(r, x) implies (has_key(m, x) || x == k) by {
            let w = choose|w: int| 0 <= w < r.len() && (#[trigger] r[w]).0 == x;
            if w < m.len() {
                assert(m[w].0 == x);
            }
        }
        assert forall|x: Seq<char>| has_key(m, x) || x == k implies #[trigger] has_key(r, x) by {
            if x == k {
                assert(r[m.len() as int].0 == x);
            } else {
                let w = choose|w: int| 0 <= w < m.len() && (#[trigger] m[w]).0 == x;
                assert(r[w].0 == x);
            }
        }
    }
}

proof fn lemma_set_entry_found<V>(m: Seq<(Seq<char>, V)>, k: Seq<char>, v: V, i: int)
    requires
        0 <= i < m.len(),
        m[i].0 == k,
        forall|j: int| 0 <= j < i ==> m[j].0 != k,
    ensures
        set_entry(m, k, v) =~= m.update(i, (k, v)),
    decreases i,
{
    if i == 0 {
        assert(set_entry(m, k, v) =~= m.update(0, (k, v)));
    } else {
        let rest = m.drop_first();
        assert(forall|j: int| 0 <= j < i - 1 ==> rest[j].0 != k);
        lemma_set_entry_found(rest, k, v, i - 1);
        assert(seq![m[0]] + rest.update(i - 1, (k, v)) =~= m.update(i, (k, v)));
    }
}

proof fn lemma_set_entry_missing<V>(m: Seq<(Seq<char>, V)>, k: Seq<char>, v: V)
    requires
        forall|j: int| 0 <= j < m.len() ==> m[j].0 != k,
    ensures
        set_entry(m, k, v) =~= m.push((k, v)),
    decreases m.len(),
{
    if m.len() > 0 {
        let rest = m.drop_first();
        assert(forall|j: int| 0 <= j < rest.len() ==> rest[j].0 != k);
        lemma_set_entry_missing(rest, k, v);
        assert(seq![m[0]] + rest.push((k, v)) =~= m.push((k, v)));
    }
}

proof fn lemma_push_entry_found<V>(m: Seq<(Seq<char>, Seq<V>)>, k: Seq<char>, v: V, i: int)
    requires
        0 <= i < m.len(),
        m[i].0 == k,
        forall|j: int| 0 <= j < i ==> m[j].0 != k,
    ensures
        push_entry(m, k, v) =~= m.update(i, (k, m[i].1.push(v))),
    decreases i,
{
    if i == 0 {
        assert(push_entry(m, k, v) =~= m.update(0, (k, m[0].1.push(v))));
    } else {
        let rest = m.drop_first();
        assert(forall|j: int| 0 <= j < i - 1 ==> rest[j].0 != k);
        lemma_push_entry_found(rest, k, v, i - 1);
        assert(seq![m[0]] + rest.update(i - 1, (k, rest[i - 1].1.push(v))) =~= m.update(
            i,
            (k, m[i].1.push(v)),
        ));
    }
}

proof fn lemma_push_entry_missing<V>(m: Seq<(Seq<char>, Seq<V>)>, k: Seq<char>, v: V)
    requires
        forall|j: int| 0 <= j < m.len() ==> m[j].0 != k,
    ensures
        push_entry(m, k, v) =~= m.push((k, seq![v])),
    decreases m.len(),
{
    if m.len() > 0 {
        let rest = m.drop_first();
        assert(forall|j: int| 0 <= j < rest.len() ==> rest[j].0 != k);
        lemma_push_entry_missing(rest, k, v);
        assert(seq![m[0]] + rest.push((k, seq![v])) =~= m.push((k, seq![v])));
    }
}

/// Index of the first entry keyed `k`, if any.
fn find_key<T>(m: &Vec<(String, T)>, k: &String) -> (r: Option<usize>)
    ensures
        match r {
            Some(i) => i < m@.len() && m@[i as int].0@ == k@ && (forall|j: int|
                0 <= j < i ==> m@[j].0@ != k@),
            None => forall|j: int| 0 <= j < m@.len() ==> m@[j].0@ != k@,
        },
{
    let mut i: usize = 0;
    while i < m.len()
        invariant
            i <= m.len(),
            forall|j: int| 0 <= j < i ==> m@[j].0@ != k@,
        decreases m.len() - i,
    {
        if m[i].0 == *k {
            return Some(i);
        }
        i += 1;
    }
    None
}

proof fn lemma_pair_deep_view<T: DeepView>(m: Vec<(String, T)>)
    ensures
        m.deep_view().len() == m@.len(),
        forall|j: int|
            0 <= j < m@.len() ==> #[trigger] m.deep_view()[j] == (m@[j].0@, m@[j].1.deep_view()),
{
}

/// Stores `v` under `k` in the association list, overwriting the first
/// entry with that key or appending a new one.
pub fn set_entry_vec<T: DeepView>(m: &mut Vec<(String, T)>, k: &String, v: T)
    ensures
        final(m).deep_view() == set_entry(old(m).deep_view(), k@, v.deep_view()),
{
    let ghost m0 = old(m).deep_view();
    let ghost vv = v.deep_view();
    proof {
        lemma_pair_deep_view(*old(m));
    }
    match find_key(m, k) {
        Some(i) => {
            let _ = m.remove(i);
            let pair_new = (k.clone(), v);
            let ghost pg = pair_new;
            m.insert(i, pair_new);
            proof {
                lemma_set_entry_found(m0, k@, vv, i as int);
                assert(m@ =~= old(m)@.update(i as int, pg));
                lemma_pair_deep_view(*m);
                assert(m.deep_view() =~= m0.update(i as int, (k@, vv)));
            }
        },
        None => {
            let pair_new = (k.clone(), v);
            let ghost pg = pair_new;
            m.push(pair_new);
            proof {
                lemma_set_entry_missing(m0, k@, vv);
                assert(m@ =~= old(m)@.push(pg));
                lemma_pair_deep_view(*m);
                assert(m.deep_view() =~= m0.push((k@, vv)));
            }
        },
    }
}

/// Appends `v` to the list stored under `k`, creating the entry when no
/// entry with that key exists yet.
pub fn push_entry_vec<T: DeepView>(m: &mut Vec<(String, Vec<T>)>, k: &String, v: T)
    ensures
        final(m).deep_view() == push_entry(old(m).deep_view(), k@, v.deep_view()),
{
    let ghost m0 = old(m).deep_view();
    let ghost vv = v.deep_view();
    proof {
        lemma_pair_deep_view(*old(m));
    }
    match find_key(m, k) {
        Some(i) => {
            let mut pair = m.remove(i);
            let ghost pair0 = pair;
            pair.1.push(v);
            let ghost pair1 = pair;
            m.insert(i, pair);
            proof {
                lemma_push_entry_found(m0, k@, vv, i as int);
                assert(m@ =~= old(m)@.update(i as int, pair1));
                assert(pair1.1.deep_view() =~= pair0.1.deep_view().push(vv));
                lemma_pair_deep_view(*m);
                assert(m.deep_view() =~= m0.update(i as int, (k@, m0[i as int].1.push(vv))));
            }
        },
        None => {
            let mut single: Vec<T> = Vec::new();
            single.push(v);
            let pair_new = (k.clone(), single);
            let ghost pg = pair_new;
            m.push(pair_new);
            proof {
                lemma_push_entry_missing(m0, k@, vv);
                assert(m@ =~= old(m)@.push(pg));
                assert(pg.1.deep_view() =~= seq![vv]);
                lemma_pair_deep_view(*m);
                assert(m.deep_view() =~= m0.push((k@, seq![vv])));
            }
        },
    }
}

} // verus!
