//! The sink writer's verified half: which rows one record contributes to
//! which output stream, what the single consumer does with each message,
//! and the law that the end-of-stream sentinel is observed only after every
//! other message of the run.

use vstd::prelude::*;
use crate::model::{distinct_keys, Data, DataModel, ErrModel, ExtractionError, Json, Message,
    MsgModel};
use crate::encode::{enc_data_props, enc_props, enc_str_list, encode_data_props, encode_props,
    encode_string_list};
use crate::extract::{LabelsM, StrMapM};

verus! {

/// Which output stream one row belongs to: one per requested language for
/// the three per-language categories, and the two global property streams.
#[derive(Debug, PartialEq)]
pub enum Stream {
    Labels(String),
    Descriptions(String),
    SiteLinks(String),
    Properties,
    DataProperties,
}

pub enum StreamModel {
    Labels(Seq<char>),
    Descriptions(Seq<char>),
    SiteLinks(Seq<char>),
    Properties,
    DataProperties,
}

impl View for Stream {
    type V = StreamModel;

    open spec fn view(&self) -> StreamModel {
        match self {
            Stream::Labels(l) => StreamModel::Labels(l@),
            Stream::Descriptions(l) => StreamModel::Descriptions(l@),
            Stream::SiteLinks(l) => StreamModel::SiteLinks(l@),
            Stream::Properties => StreamModel::Properties,
            Stream::DataProperties => StreamModel::DataProperties,
        }
    }
}

/// One output row: the stream it belongs to, the record identifier and the
/// second cell.
#[derive(Debug, PartialEq)]
pub struct Row {
    pub stream: Stream,
    pub qid: String,
    pub cell: String,
}

pub struct RowModel {
    pub stream: StreamModel,
    pub qid: Seq<char>,
    pub cell: Seq<char>,
}

impl View for Row {
    type V = RowModel;

    open spec fn view(&self) -> RowModel {
        RowModel { stream: self.stream@, qid: self.qid@, cell: self.cell@ }
    }
}

impl DeepView for Row {
    type V = RowModel;

    open spec fn deep_view(&self) -> RowModel {
        self.view()
    }
}

/// One label row per language that has at least one label: the identifier
/// and the encoded label sequence.
pub open spec fn label_rows(qid: Seq<char>, m: LabelsM) -> Seq<RowModel>
    decreases m.len(),
{
    if m.len() == 0 {
        Seq::empty()
    } else {
        label_rows(qid, m.drop_last()).push(
            RowModel {
                stream: StreamModel::Labels(m.last().0),
                qid: qid,
                cell: enc_str_list(m.last().1),
            },
        )
    }
}

/// One description row per language that has one: the description itself
/// is the cell, unencoded.
pub open spec fn desc_rows(qid: Seq<char>, m: StrMapM) -> Seq<RowModel>
    decreases m.len(),
{
    if m.len() == 0 {
        Seq::empty()
    } else {
        desc_rows(qid, m.drop_last()).push(
            RowModel { stream: StreamModel::Descriptions(m.last().0), qid: qid, cell: m.last().1 },
        )
    }
}

/// One site-link row per language whose site has an entry for the record.
pub open spec fn wiki_rows(qid: Seq<char>, m: StrMapM) -> Seq<RowModel>
    decreases m.len(),
{
    if m.len() == 0 {
        Seq::empty()
    } else {
        wiki_rows(qid, m.drop_last()).push(
            RowModel { stream: StreamModel::SiteLinks(m.last().0), qid: qid, cell: m.last().1 },
        )
    }
}

/// Every row one record contributes: its label, description, property and
/// site-link rows.  The two global streams receive exactly one row each,
/// whether or not the mappings are empty.
pub open spec fn spec_rows(d: DataModel) -> Seq<RowModel> {
    label_rows(d.qid, d.labels) + desc_rows(d.qid, d.description) + seq![
        RowModel { stream: StreamModel::Properties, qid: d.qid, cell: enc_props(d.properties) },
        RowModel {
            stream: StreamModel::DataProperties,
            qid: d.qid,
            cell: enc_data_props(d.data_props),
        },
    ] + wiki_rows(d.qid, d.wiki)
}

/// Computes the rows the sink writer appends for one record.
#[verifier::loop_isolation(false)]
pub fn rows_for(d: &Data) -> (r: Vec<Row>)
    ensures
        r.deep_view() == spec_rows(d@),
{
    let ghost lm = d.labels.deep_view();
    let ghost dm = d.description.deep_view();
    let ghost wm = d.wiki.deep_view();
    let mut out: Vec<Row> = Vec::new();
    let mut i: usize = 0;
    proof {
        assert(lm.take(0) =~= Seq::<(Seq<char>, Seq<Seq<char>>)>::empty());
        assert(out.deep_view() =~= label_rows(d.qid@, lm.take(0)));
    }
    while i < d.labels.len()
        invariant
            i <= d.labels.len(),
            out.deep_view() == label_rows(d.qid@, lm.take(i as int)),
        decreases d.labels.len() - i,
    {
        let ghost out0 = out.deep_view();
        let pair = &d.labels[i];
        let row = Row {
            stream: Stream::Labels(pair.0.clone()),
            qid: d.qid.clone(),
            cell: encode_string_list(&pair.1),
        };
        let ghost rv = row@;
        out.push(row);
        proof {
            assert(lm.take(i as int + 1).drop_last() =~= lm.take(i as int));
            assert(lm.take(i as int + 1).last() == lm[i as int]);
            assert(lm[i as int] == (d.labels@[i as int].0@, d.labels@[i as int].1.deep_view()));
            assert(out.deep_view() =~= out0.push(rv));
        }
        i += 1;
    }
    proof {
        assert(lm.take(lm.len() as int) =~= lm);
    }
    let mut i: usize = 0;
    proof {
        assert(dm.take(0) =~= Seq::<(Seq<char>, Seq<char>)>::empty());
        assert(out.deep_view() =~= label_rows(d.qid@, lm) + desc_rows(d.qid@, dm.take(0)));
    }
    while i < d.description.len()
        invariant
            i <= d.description.len(),
            out.deep_view() == label_rows(d.qid@, lm) + desc_rows(d.qid@, dm.take(i as int)),
        decreases d.description.len() - i,
    {
        let ghost out0 = out.deep_view();
        let pair = &d.description[i];
        let row = Row {
            stream: Stream::Descriptions(pair.0.clone()),
            qid: d.qid.clone(),
            cell: pair.1.clone(),
        };
        let ghost rv = row@;
        out.push(row);
        proof {
            assert(dm.take(i as int + 1).drop_last() =~= dm.take(i as int));
            assert(dm.take(i as int + 1).last() == dm[i as int]);
            assert(dm[i as int] == (d.description@[i as int].0@, d.description@[i as int].1@));
            assert(out.deep_view() =~= out0.push(rv));
        }
        i += 1;
    }
    proof {
        assert(dm.take(dm.len() as int) =~= dm);
    }
    let ghost out1 = out.deep_view();
    let prow = Row {
        stream: Stream::Properties,
        qid: d.qid.clone(),
        cell: encode_props(&d.properties),
    };
    let ghost pv = prow@;
    out.push(prow);
    let dprow = Row {
        stream: Stream::DataProperties,
        qid: d.qid.clone(),
        cell: encode_data_props(&d.data_props),
    };
    let ghost dpv = dprow@;
    out.push(dprow);
    proof {
        assert(out.deep_view() =~= out1.push(pv).push(dpv));
        assert(out.deep_view() =~= label_rows(d.qid@, lm) + desc_rows(d.qid@, dm) + seq![
            RowModel {
                stream: StreamModel::Properties,
                qid: d.qid@,
                cell: enc_props(d.properties.deep_view()),
            },
            RowModel {
                stream: StreamModel::DataProperties,
                qid: d.qid@,
                cell: enc_data_props(d.data_props.deep_view()),
            },
        ]);
    }
    let ghost out2 = out.deep_view();
    let mut i: usize = 0;
    proof {
        assert(wm.take(0) =~= Seq::<(Seq<char>, Seq<char>)>::empty());
        assert(out.deep_view() =~= out2 + wiki_rows(d.qid@, wm.take(0)));
    }
    while i < d.wiki.len()
        invariant
            i <= d.wiki.len(),
            out.deep_view() == out2 + wiki_rows(d.qid@, wm.take(i as int)),
        decreases d.wiki.len() - i,
    {
        let ghost out0 = out.deep_view();
        let pair = &d.wiki[i];
        let row = Row {
            stream: Stream::SiteLinks(pair.0.clone()),
            qid: d.qid.clone(),
            cell: pair.1.clone(),
        };
        let ghost rv = row@;
        out.push(row);
        proof {
            assert(wm.take(i as int + 1).drop_last() =~= wm.take(i as int));
            assert(wm.take(i as int + 1).last() == wm[i as int]);
            assert(wm[i as int] == (d.wiki@[i as int].0@, d.wiki@[i as int].1@));
            assert(out.deep_view() =~= out0.push(rv));
        }
        i += 1;
    }
    proof {
        assert(wm.take(wm.len() as int) =~= wm);
        assert(out.deep_view() =~= spec_rows(d@));
    }
    out
}

/// What the sink writer does with one message.
#[derive(Debug)]
pub enum SinkAction {
    Write(Vec<Row>),
    Report(ExtractionError),
    Finish,
}

/// The single consumer's decision for one message: a record becomes its
/// output rows, a per-record error is reported and the run continues, and
/// the sentinel ends the run.
pub fn sink_step(msg: Message) -> (a: SinkAction)
    ensures
        match msg {
            Message::Data(d) => (a matches SinkAction::Write(rows) && rows.deep_view() == spec_rows(
                d@,
            )),
            Message::Error(e) => a == SinkAction::Report(e),
            Message::End => a is Finish,
        },
{
    match msg {
        Message::Data(d) => SinkAction::Write(rows_for(&d)),
        Message::Error(e) => SinkAction::Report(e),
        Message::End => SinkAction::Finish,
    }
}

/// The prefix of a message sequence that the writer consumes: everything
/// before the first end-of-stream sentinel.
pub open spec fn observed_before_end(msgs: Seq<MsgModel>) -> Seq<MsgModel>
    decreases msgs.len(),
{
    if msgs.len() == 0 {
        Seq::empty()
    } else if msgs[0] is End {
        Seq::empty()
    } else {
        seq![msgs[0]] + observed_before_end(msgs.drop_first())
    }
}

/// Law: when the sentinel is enqueued only after every data and error
/// message of the run — which the pool's join barrier guarantees — the
/// writer observes every message of the run before it stops: what it
/// receives before the end is exactly the dispatched payload, so the count
/// received before the end equals the number of dispatched units.
pub proof fn lemma_sentinel_after_all(payload: Seq<MsgModel>)
    requires
        forall|i: int| 0 <= i < payload.len() ==> !(payload[i] is End),
    ensures
        observed_before_end(payload.push(MsgModel::End)) == payload,
        observed_before_end(payload.push(MsgModel::End)).len() == payload.len(),
    decreases payload.len(),
{
    if payload.len() == 0 {
        assert(payload.push(MsgModel::End)[0] is End);
        assert(observed_before_end(payload.push(MsgModel::End)) =~= payload);
    } else {
        assert(!(payload[0] is End));
        assert(payload.push(MsgModel::End)[0] == payload[0]);
        assert(payload.push(MsgModel::End).drop_first() =~= payload.drop_first().push(
            MsgModel::End,
        ));
        assert(forall|i: int|
            0 <= i < payload.drop_first().len() ==> !(payload.drop_first()[i] is End));
        lemma_sentinel_after_all(payload.drop_first());
        assert(seq![payload[0]] + payload.drop_first() =~= payload);
    }
}

/// The rows one message contributes: a record's rows, nothing otherwise.
pub open spec fn msg_rows(m: MsgModel) -> Seq<RowModel> {
    match m {
        MsgModel::Data(d) => spec_rows(d),
        _ => Seq::empty(),
    }
}

/// Every row of a run, in the order the messages were consumed.
pub open spec fn rows_of_run(msgs: Seq<MsgModel>) -> Seq<RowModel>
    decreases msgs.len(),
{
    if msgs.len() == 0 {
        Seq::empty()
    } else {
        rows_of_run(msgs.drop_last()) + msg_rows(msgs.last())
    }
}

proof fn lemma_rows_of_run_remove(msgs: Seq<MsgModel>, i: int)
    requires
        0 <= i < msgs.len(),
    ensures
        rows_of_run(msgs).to_multiset() == rows_of_run(msgs.remove(i)).to_multiset().add(
            msg_rows(msgs[i]).to_multiset(),
        ),
    decreases msgs.len(),
{
    broadcast use vstd::seq_lib::lemma_multiset_commutative;

    if i == msgs.len() - 1 {
        assert(msgs.remove(i) =~= msgs.drop_last());
        assert(rows_of_run(msgs).to_multiset() =~= rows_of_run(msgs.drop_last()).to_multiset().add(
            msg_rows(msgs.last()).to_multiset(),
        ));
    } else {
        let mdl = msgs.drop_last();
        assert(msgs.remove(i).drop_last() =~= mdl.remove(i));
        assert(msgs.remove(i).last() == msgs.last());
        lemma_rows_of_run_remove(mdl, i);
        assert(mdl[i] == msgs[i]);
        assert(rows_of_run(msgs).to_multiset() =~= rows_of_run(msgs.remove(i)).to_multiset().add(
            msg_rows(msgs[i]).to_multiset(),
        ));
    }
}

/// Law: two runs that consume the same messages, in whatever order the
/// channel delivered them, write the same multiset of rows.  Together with
/// the schedule independence of the messages themselves, the output row
/// sets cannot depend on the worker-pool size.
pub proof fn lemma_rows_schedule_independent(m1: Seq<MsgModel>, m2: Seq<MsgModel>)
    requires
        m1.to_multiset() == m2.to_multiset(),
    ensures
        rows_of_run(m1).to_multiset() == rows_of_run(m2).to_multiset(),
    decreases m1.len(),
{
    broadcast use vstd::seq_lib::group_to_multiset_ensures;
    broadcast use vstd::seq_lib::lemma_multiset_commutative;

    if m1.len() == 0 {
        assert(m1.to_multiset().len() == 0);
        assert(m2.len() == 0);
    } else {
        let x = m1.last();
        assert(m1.contains(x));
        assert(m1.to_multiset().count(x) > 0);
        assert(m2.to_multiset().count(x) > 0);
        assert(m2.contains(x));
        let i = choose|i: int| 0 <= i < m2.len() && m2[i] == x;
        assert(m1.remove(m1.len() - 1) =~= m1.drop_last());
        assert(m1.drop_last().to_multiset() =~= m1.to_multiset().remove(x));
        assert(m2.remove(i).to_multiset() =~= m2.to_multiset().remove(x));
        lemma_rows_schedule_independent(m1.drop_last(), m2.remove(i));
        lemma_rows_of_run_remove(m2, i);
        assert(rows_of_run(m1).to_multiset() =~= rows_of_run(m1.drop_last()).to_multiset().add(
            msg_rows(x).to_multiset(),
        ));
    }
}

/// The number of extracted records among the messages: the number of
/// syntactically valid, schema-conformant lines of the run.
pub open spec fn data_count(msgs: Seq<MsgModel>) -> nat
    decreases msgs.len(),
{
    if msgs.len() == 0 {
        0
    } else {
        data_count(msgs.drop_last()) + (if msgs.last() is Data {
            1nat
        } else {
            0nat
        })
    }
}

/// How many rows of `rows` belong to the stream `st`.
pub open spec fn stream_row_count(rows: Seq<RowModel>, st: StreamModel) -> nat
    decreases rows.len(),
{
    if rows.len() == 0 {
        0
    } else {
        stream_row_count(rows.drop_last(), st) + (if rows.last().stream == st {
            1nat
        } else {
            0nat
        })
    }
}

proof fn lemma_count_concat(a: Seq<RowModel>, b: Seq<RowModel>, st: StreamModel)
    ensures
        stream_row_count(a + b, st) == stream_row_count(a, st) + stream_row_count(b, st),
    decreases b.len(),
{
    if b.len() == 0 {
        assert(a + b =~= a);
    } else {
        assert((a + b).drop_last() =~= a + b.drop_last());
        assert((a + b).last() == b.last());
        lemma_count_concat(a, b.drop_last(), st);
    }
}

proof fn lemma_label_rows_count(qid: Seq<char>, m: LabelsM, st: StreamModel)
    requires
        !(st is Labels),
    ensures
        stream_row_count(label_rows(qid, m), st) == 0,
    decreases m.len(),
{
    if m.len() > 0 {
        lemma_label_rows_count(qid, m.drop_last(), st);
        assert(label_rows(qid, m).drop_last() =~= label_rows(qid, m.drop_last()));
        assert(label_rows(qid, m).last().stream == StreamModel::Labels(m.last().0));
    }
}

proof fn lemma_desc_rows_count(qid: Seq<char>, m: StrMapM, st: StreamModel)
    requires
        !(st is Descriptions),
    ensures
        stream_row_count(desc_rows(qid, m), st) == 0,
    decreases m.len(),
{
    if m.len() > 0 {
        lemma_desc_rows_count(qid, m.drop_last(), st);
        assert(desc_rows(qid, m).drop_last() =~= desc_rows(qid, m.drop_last()));
        assert(desc_rows(qid, m).last().stream == StreamModel::Descriptions(m.last().0));
    }
}

proof fn lemma_wiki_rows_count(qid: Seq<char>, m: StrMapM, st: StreamModel)
    requires
        !(st is SiteLinks),
    ensures
        stream_row_count(wiki_rows(qid, m), st) == 0,
    decreases m.len(),
{
    if m.len() > 0 {
        lemma_wiki_rows_count(qid, m.drop_last(), st);
        assert(wiki_rows(qid, m).drop_last() =~= wiki_rows(qid, m.drop_last()));
        assert(wiki_rows(qid, m).last().stream == StreamModel::SiteLinks(m.last().0));
    }
}

/// Law: one record contributes exactly one row to each global stream,
/// whether or not its property mappings are empty.
pub proof fn lemma_one_global_row(d: DataModel)
    ensures
        stream_row_count(spec_rows(d), StreamModel::Properties) == 1,
        stream_row_count(spec_rows(d), StreamModel::DataProperties) == 1,
{
    let la = label_rows(d.qid, d.labels);
    let de = desc_rows(d.qid, d.description);
    let gl = seq![
        RowModel { stream: StreamModel::Properties, qid: d.qid, cell: enc_props(d.properties) },
        RowModel {
            stream: StreamModel::DataProperties,
            qid: d.qid,
            cell: enc_data_props(d.data_props),
        },
    ];
    let wi = wiki_rows(d.qid, d.wiki);
    assert(spec_rows(d) =~= la + de + gl + wi);
    lemma_label_rows_count(d.qid, d.labels, StreamModel::Properties);
    lemma_label_rows_count(d.qid, d.labels, StreamModel::DataProperties);
    lemma_desc_rows_count(d.qid, d.description, StreamModel::Properties);
    lemma_desc_rows_count(d.qid, d.description, StreamModel::DataProperties);
    lemma_wiki_rows_count(d.qid, d.wiki, StreamModel::Properties);
    lemma_wiki_rows_count(d.qid, d.wiki, StreamModel::DataProperties);
    lemma_count_concat(la, de, StreamModel::Properties);
    lemma_count_concat(la + de, gl, StreamModel::Properties);
    lemma_count_concat(la + de + gl, wi, StreamModel::Properties);
    lemma_count_concat(la, de, StreamModel::DataProperties);
    lemma_count_concat(la + de, gl, StreamModel::DataProperties);
    lemma_count_concat(la + de + gl, wi, StreamModel::DataProperties);
    assert(stream_row_count(gl, StreamModel::Properties) == 1) by {
        reveal_with_fuel(stream_row_count, 3);
        assert(gl.last().stream == StreamModel::DataProperties);
        assert(gl.drop_last().last() == gl[0]);
        assert(gl.drop_last().drop_last() =~= Seq::<RowModel>::empty());
    }
    assert(stream_row_count(gl, StreamModel::DataProperties) == 1) by {
        reveal_with_fuel(stream_row_count, 3);
        assert(gl.last().stream == StreamModel::DataProperties);
        assert(gl.drop_last().last() == gl[0]);
        assert(gl.drop_last().drop_last() =~= Seq::<RowModel>::empty());
    }
}

/// Law: each global stream receives exactly one row per extracted record:
/// its row count for a run equals the number of syntactically valid,
/// schema-conformant input lines, whatever errors came between.
pub proof fn lemma_global_row_count(msgs: Seq<MsgModel>)
    ensures
        stream_row_count(rows_of_run(msgs), StreamModel::Properties) == data_count(msgs),
        stream_row_count(rows_of_run(msgs), StreamModel::DataProperties) == data_count(msgs),
    decreases msgs.len(),
{
    if msgs.len() > 0 {
        lemma_global_row_count(msgs.drop_last());
        lemma_count_concat(
            rows_of_run(msgs.drop_last()),
            msg_rows(msgs.last()),
            StreamModel::Properties,
        );
        lemma_count_concat(
            rows_of_run(msgs.drop_last()),
            msg_rows(msgs.last()),
            StreamModel::DataProperties,
        );
        match msgs.last() {
            MsgModel::Data(d) => {
                lemma_one_global_row(d);
            },
            _ => {},
        }
    }
}

proof fn lemma_label_rows_index(qid: Seq<char>, m: LabelsM)
    ensures
        label_rows(qid, m).len() == m.len(),
        forall|i: int|
            0 <= i < m.len() ==> #[trigger] label_rows(qid, m)[i] == (RowModel {
                stream: StreamModel::Labels(m[i].0),
                qid: qid,
                cell: enc_str_list(m[i].1),
            }),
    decreases m.len(),
{
    if m.len() > 0 {
        lemma_label_rows_index(qid, m.drop_last());
        assert forall|i: int|
            0 <= i < m.len() implies #[trigger] label_rows(qid, m)[i] == (RowModel {
            stream: StreamModel::Labels(m[i].0),
            qid: qid,
            cell: enc_str_list(m[i].1),
        }) by {
            if i < m.len() - 1 {
                assert(m.drop_last()[i] == m[i]);
                assert(label_rows(qid, m)[i] == label_rows(qid, m.drop_last())[i]);
            }
        }
    }
}

proof fn lemma_desc_rows_index(qid: Seq<char>, m: StrMapM)
    ensures
        desc_rows(qid, m).len() == m.len(),
        forall|i: int|
            0 <= i < m.len() ==> #[trigger] desc_rows(qid, m)[i] == (RowModel {
                stream: StreamModel::Descriptions(m[i].0),
                qid: qid,
                cell: m[i].1,
            }),
    decreases m.len(),
{
    if m.len() > 0 {
        lemma_desc_rows_index(qid, m.drop_last());
        assert forall|i: int|
            0 <= i < m.len() implies #[trigger] desc_rows(qid, m)[i] == (RowModel {
            stream: StreamModel::Descriptions(m[i].0),
            qid: qid,
            cell: m[i].1,
        }) by {
            if i < m.len() - 1 {
                assert(m.drop_last()[i] == m[i]);
                assert(desc_rows(qid, m)[i] == desc_rows(qid, m.drop_last())[i]);
            }
        }
    }
}

proof fn lemma_wiki_rows_index(qid: Seq<char>, m: StrMapM)
    ensures
        wiki_rows(qid, m).len() == m.len(),
        forall|i: int|
            0 <= i < m.len() ==> #[trigger] wiki_rows(qid, m)[i] == (RowModel {
                stream: StreamModel::SiteLinks(m[i].0),
                qid: qid,
                cell: m[i].1,
            }),
    decreases m.len(),
{
    if m.len() > 0 {
        lemma_wiki_rows_index(qid, m.drop_last());
        assert forall|i: int|
            0 <= i < m.len() implies #[trigger] wiki_rows(qid, m)[i] == (RowModel {
            stream: StreamModel::SiteLinks(m[i].0),
            qid: qid,
            cell: m[i].1,
        }) by {
            if i < m.len() - 1 {
                assert(m.drop_last()[i] == m[i]);
                assert(wiki_rows(qid, m)[i] == wiki_rows(qid, m.drop_last())[i]);
            }
        }
    }
}

/// Law: a record whose association lists key each language at most once
/// contributes no duplicate rows: one row per language present in each
/// per-language category, one row per global stream, all pairwise
/// distinct.
pub proof fn lemma_no_duplicate_rows(d: DataModel)
    requires
        distinct_keys(d.labels),
        distinct_keys(d.description),
        distinct_keys(d.wiki),
    ensures
        spec_rows(d).len() == d.labels.len() + d.description.len() + 2 + d.wiki.len(),
        forall|a: int, b: int|
            0 <= a < b < spec_rows(d).len() ==> spec_rows(d)[a] != spec_rows(d)[b],
{
    let la = label_rows(d.qid, d.labels);
    let de = desc_rows(d.qid, d.description);
    let wi = wiki_rows(d.qid, d.wiki);
    let rows = spec_rows(d);
    lemma_label_rows_index(d.qid, d.labels);
    lemma_desc_rows_index(d.qid, d.description);
    lemma_wiki_rows_index(d.qid, d.wiki);
    let n1 = la.len() as int;
    let n2 = n1 + de.len();
    let n3 = n2 + 2;
    let n4 = n3 + wi.len();
    assert(rows.len() == n4);
    assert(forall|x: int| 0 <= x < n1 ==> #[trigger] rows[x] == la[x]);
    assert(forall|x: int| n1 <= x < n2 ==> #[trigger] rows[x] == de[x - n1]);
    assert(rows[n2].stream is Properties);
    assert(rows[n2 + 1].stream is DataProperties);
    assert(forall|x: int| n3 <= x < n4 ==> #[trigger] rows[x] == wi[x - n3]);
    assert(forall|x: int| 0 <= x < n1 ==> (#[trigger] rows[x]).stream is Labels);
    assert(forall|x: int| n1 <= x < n2 ==> (#[trigger] rows[x]).stream is Descriptions);
    assert(forall|x: int| n3 <= x < n4 ==> (#[trigger] rows[x]).stream is SiteLinks);
    assert forall|a: int, b: int| 0 <= a < b < rows.len() implies rows[a] != rows[b] by {
        if b < n1 {
            assert(rows[a].stream == StreamModel::Labels(d.labels[a].0));
            assert(rows[b].stream == StreamModel::Labels(d.labels[b].0));
            assert(d.labels[a].0 != d.labels[b].0);
        } else if n1 <= a && b < n2 {
            assert(rows[a].stream == StreamModel::Descriptions(d.description[a - n1].0));
            assert(rows[b].stream == StreamModel::Descriptions(d.description[b - n1].0));
            assert(d.description[a - n1].0 != d.description[b - n1].0);
        } else if n3 <= a {
            assert(rows[a].stream == StreamModel::SiteLinks(d.wiki[a - n3].0));
            assert(rows[b].stream == StreamModel::SiteLinks(d.wiki[b - n3].0));
            assert(d.wiki[a - n3].0 != d.wiki[b - n3].0);
        } else {
            assert(rows[a].stream != rows[b].stream);
        }
    }
}

/// Law: for a record the extractor accepts, the sink writer appends
/// exactly one row per language present in each per-language category and
/// exactly one row to each of the two global streams, and no two of those
/// rows are equal.
pub proof fn lemma_record_rows(j: Json, langs: Seq<Seq<char>>, line_no: int, d: DataModel)
    requires
        crate::extract::spec_extract(j, langs, line_no) == Ok::<DataModel, ErrModel>(d),
    ensures
        spec_rows(d).len() == d.labels.len() + d.description.len() + 2 + d.wiki.len(),
        forall|a: int, b: int|
            0 <= a < b < spec_rows(d).len() ==> spec_rows(d)[a] != spec_rows(d)[b],
{
    crate::extract::lemma_extract_distinct(j, langs, line_no, d);
    lemma_no_duplicate_rows(d);
}

/// Law: for every well-formed record, extraction succeeds, and the sink
/// writer appends exactly one row per language present in each
/// per-language category and one row per global stream, with no two of
/// those rows equal.
pub proof fn lemma_well_formed_record_rows(j: Json, langs: Seq<Seq<char>>, line_no: int)
    requires
        crate::extract::wf_record(j),
    ensures
        crate::extract::spec_extract(j, langs, line_no) is Ok,
        crate::extract::spec_extract(j, langs, line_no) matches Ok(d) ==> (spec_rows(d).len()
            == d.labels.len() + d.description.len() + 2 + d.wiki.len() && (forall|a: int, b: int|
            0 <= a < b < spec_rows(d).len() ==> spec_rows(d)[a] != spec_rows(d)[b])),
{
    crate::extract::lemma_well_formed_extracts(j, langs, line_no);
    match crate::extract::spec_extract(j, langs, line_no) {
        Ok(d) => lemma_record_rows(j, langs, line_no, d),
        Err(_) => {},
    }
}

} // verus!
