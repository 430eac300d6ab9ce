//! The per-line work of the pipeline: framing a physical line of the dump,
//! parsing it, and extracting its record; and the law that the messages of
//! a run do not depend on how the pool schedules the lines.

use vstd::prelude::*;
use vstd::string::StrSliceExecFns;
use crate::model::{ErrModel, ExtractionError, Json, Message, MsgModel};
use crate::extract::{extract_data, spec_extract};

verus! {

#[verifier::external_type_specification]
#[verifier::external_body]
pub struct ExJsonValue(json::JsonValue);

/// The JSON tree that the dump parser yields for the text `s`, converted
/// to the library's model, or `None` when the parser rejects the text.
/// The parser reads nothing but the text, so the result is a function of
/// the characters alone.
pub uninterp spec fn parsed_json(s: Seq<char>) -> Option<Json>;

/// Relies on the variants of json::JsonValue: each arm moves one parsed
/// variant into the library's model of it; nested values are converted the
/// same way.
#[verifier::external_body]
fn convert_json(v: json::JsonValue) -> Json {
    match v {
        json::JsonValue::Short(s) => Json::Str(s.as_str().to_owned()),
        json::JsonValue::String(s) => Json::Str(s),
        json::JsonValue::Object(o) => Json::Obj(
            o.iter().map(|(k, x)| (k.to_owned(), convert_json(x.clone()))).collect(),
        ),
        json::JsonValue::Array(a) => Json::Arr(a.into_iter().map(convert_json).collect()),
        _ => Json::Other,
    }
}

/// Relies on json::parse: deterministic parsing of one line of text.  It
/// reads nothing but the text, and fails (here: `None`) when the text is
/// not valid JSON or nests beyond the parser's fixed depth limit.
#[verifier::external_body]
fn parse_json(s: &str) -> (r: Option<Json>)
    ensures
        r == parsed_json(s@),
{
    match json::parse(s) {
        Ok(v) => Some(convert_json(v)),
        Err(_) => None,
    }
}

/// Frames one physical line of the dump: a line of fewer than two
/// characters carries no record (it frames the enclosing array); any other
/// line loses its final character, the trailing list separator.
pub fn frame_line(line: &str) -> (r: Option<String>)
    ensures
        line@.len() < 2 ==> r is None,
        line@.len() >= 2 ==> (r matches Some(s) && s@ == line@.take(line@.len() - 1)),
{
    let n = line.unicode_len();
    if n < 2 {
        None
    } else {
        let stripped = line.substring_char(0, n - 1);
        proof {
            assert(stripped@ =~= line@.take(line@.len() - 1));
        }
        Some(stripped.to_owned())
    }
}

/// The message one unit of work produces for a framed line.
pub open spec fn spec_process_line(line: Seq<char>, langs: Seq<Seq<char>>, line_no: int) -> MsgModel {
    match parsed_json(line) {
        None => MsgModel::Error(ErrModel::MalformedInput(line_no)),
        Some(j) => match spec_extract(j, langs, line_no) {
            Ok(d) => MsgModel::Data(d),
            Err(e) => MsgModel::Error(e),
        },
    }
}

/// Runs one unit of work of the pool: parses a framed line and either
/// extracts its record or classifies the failure.
pub fn process_line(line: &str, langs: &Vec<String>, line_no: usize) -> (r: Message)
    ensures
        r@ == spec_process_line(line@, langs.deep_view(), line_no as int),
{
    match parse_json(line) {
        None => Message::Error(ExtractionError::MalformedInput(line_no)),
        Some(j) => match extract_data(&j, langs, line_no) {
            Ok(d) => Message::Data(d),
            Err(e) => Message::Error(e),
        },
    }
}

/// The message of one unit of work: the framed line text and its 1-based
/// line number.
pub open spec fn line_message(w: (Seq<char>, int), langs: Seq<Seq<char>>) -> MsgModel {
    spec_process_line(w.0, langs, w.1)
}

/// The messages of a whole run, in the order the units were dispatched.
pub open spec fn run_messages(work: Seq<(Seq<char>, int)>, langs: Seq<Seq<char>>) -> Seq<MsgModel>
    decreases work.len(),
{
    if work.len() == 0 {
        Seq::empty()
    } else {
        run_messages(work.drop_last(), langs).push(line_message(work.last(), langs))
    }
}

/// Law: no unit of work ever produces the end-of-stream sentinel — one
/// message per dispatched line, each a record or an error.  Only the
/// reader's final send, after the pool's join, carries the sentinel, so
/// the sentinel always follows every message of the run.
pub proof fn lemma_run_has_no_end(work: Seq<(Seq<char>, int)>, langs: Seq<Seq<char>>)
    ensures
        run_messages(work, langs).len() == work.len(),
        forall|i: int|
            0 <= i < work.len() ==> !((#[trigger] run_messages(work, langs)[i]) is End),
    decreases work.len(),
{
    if work.len() > 0 {
        lemma_run_has_no_end(work.drop_last(), langs);
        assert forall|i: int|
            0 <= i < work.len() implies !((#[trigger] run_messages(work, langs)[i]) is End) by {
            if i < work.len() - 1 {
                assert(run_messages(work, langs)[i] == run_messages(work.drop_last(), langs)[i]);
            } else {
                assert(run_messages(work, langs)[i] == line_message(work.last(), langs));
            }
        }
    }
}

proof fn lemma_run_messages_remove(work: Seq<(Seq<char>, int)>, langs: Seq<Seq<char>>, i: int)
    requires
        0 <= i < work.len(),
    ensures
        run_messages(work, langs).to_multiset() == run_messages(work.remove(i), langs).to_multiset()
            .insert(line_message(work[i], langs)),
    decreases work.len(),
{
    broadcast use vstd::seq_lib::group_to_multiset_ensures;

    if i == work.len() - 1 {
        assert(work.remove(i) =~= work.drop_last());
        assert(run_messages(work, langs).to_multiset() =~= run_messages(
            work.drop_last(),
            langs,
        ).to_multiset().insert(line_message(work.last(), langs)));
    } else {
        let wdl = work.drop_last();
        assert(work.remove(i).drop_last() =~= wdl.remove(i));
        assert(work.remove(i).last() == work.last());
        lemma_run_messages_remove(wdl, langs, i);
        assert(wdl[i] == work[i]);
        assert(run_messages(work, langs).to_multiset() =~= run_messages(
            work.remove(i),
            langs,
        ).to_multiset().insert(line_message(work[i], langs)));
    }
}

/// Law: the multiset of messages of a run depends only on the multiset of
/// dispatched units of work, never on the order in which the pool executes
/// them.  Two schedules of the same lines — a pool of one worker and a pool
/// of eight — deliver the same messages, and so the same output rows, up to
/// order.
pub proof fn lemma_schedule_independence(
    work1: Seq<(Seq<char>, int)>,
    work2: Seq<(Seq<char>, int)>,
    langs: Seq<Seq<char>>,
)
    requires
        work1.to_multiset() == work2.to_multiset(),
    ensures
        run_messages(work1, langs).to_multiset() == run_messages(work2, langs).to_multiset(),
    decreases work1.len(),
{
    broadcast use vstd::seq_lib::group_to_multiset_ensures;

    if work1.len() == 0 {
        assert(work1.to_multiset().len() == 0);
        assert(work2.len() == 0);
    } else {
        let x = work1.last();
        assert(work1.contains(x));
        assert(work1.to_multiset().count(x) > 0);
        assert(work2.to_multiset().count(x) > 0);
        assert(work2.contains(x));
        let i = choose|i: int| 0 <= i < work2.len() && work2[i] == x;
        assert(work1.remove(work1.len() - 1) =~= work1.drop_last());
        assert(work1.drop_last().to_multiset() =~= work1.to_multiset().remove(x));
        assert(work2.remove(i).to_multiset() =~= work2.to_multiset().remove(x));
        lemma_schedule_independence(work1.drop_last(), work2.remove(i), langs);
        lemma_run_messages_remove(work2, langs, i);
        assert(run_messages(work1, langs).to_multiset() =~= run_messages(
            work1.drop_last(),
            langs,
        ).to_multiset().insert(line_message(x, langs)));
    }
}

} // verus!
