use wikidata_db::encode::{encode_data_props, encode_props, encode_string_list};
use wikidata_db::model::{ExtractionError, Message};
use wikidata_db::pipeline::{frame_line, process_line};
use wikidata_db::sink::{rows_for, sink_step, SinkAction, Stream};

fn s(text: &str) -> String {
    text.to_owned()
}

#[test]
fn frame_line_skips_short_lines() {
    assert_eq!(frame_line(""), None);
    assert_eq!(frame_line("["), None);
    assert_eq!(frame_line("]"), None);
}

#[test]
fn frame_line_strips_trailing_separator() {
    assert_eq!(frame_line("{},"), Some(s("{}")));
    assert_eq!(frame_line("ab"), Some(s("a")));
}

#[test]
fn malformed_line_reports_its_number() {
    let langs = vec![s("en")];
    let msg = process_line("{\"id\":", &langs, 41);
    assert_eq!(msg, Message::Error(ExtractionError::MalformedInput(41)));
}

#[test]
fn example_line_produces_expected_rows() {
    let line = "{\"id\":\"Q1\",\"labels\":{\"en\":{\"value\":\"Universe\"}},\"descriptions\":{\"en\":{\"value\":\"totality\"}},\"claims\":{},\"sitelinks\":{}}";
    let langs = vec![s("en")];
    let msg = process_line(line, &langs, 1);
    let data = match msg {
        Message::Data(data) => data,
        other => panic!("expected a record, got {:?}", other),
    };
    assert_eq!(data.qid, "Q1");
    assert_eq!(data.labels, vec![(s("en"), vec![s("Universe")])]);
    assert_eq!(data.description, vec![(s("en"), s("totality"))]);
    assert!(data.wiki.is_empty());
    let rows = rows_for(&data);
    assert_eq!(rows.len(), 4);
    assert_eq!(rows[0].stream, Stream::Labels(s("en")));
    assert_eq!(rows[0].qid, "Q1");
    assert_eq!(rows[0].cell, "[\"Universe\"]");
    assert_eq!(rows[1].stream, Stream::Descriptions(s("en")));
    assert_eq!(rows[1].cell, "totality");
    assert_eq!(rows[2].stream, Stream::Properties);
    assert_eq!(rows[2].cell, "{}");
    assert_eq!(rows[3].stream, Stream::DataProperties);
    assert_eq!(rows[3].cell, "{}");
    assert!(rows.iter().all(|r| r.stream != Stream::SiteLinks(s("en"))));
}

#[test]
fn missing_id_line_reports_field_and_number() {
    let line = "{\"labels\":{},\"descriptions\":{},\"claims\":{}}";
    let langs = vec![s("en")];
    let msg = process_line(line, &langs, 23);
    assert_eq!(msg, Message::Error(ExtractionError::SchemaViolation(s("No id field"), 23)));
}

#[test]
fn parsed_claims_reach_property_rows() {
    let line = "{\"id\":\"Q2\",\"labels\":{},\"descriptions\":{},\"claims\":{\"P31\":[{\"mainsnak\":{\"datatype\":\"wikibase-item\",\"datavalue\":{\"value\":{\"id\":\"Q5\"}}}}]}}";
    let langs = vec![s("en")];
    let msg = process_line(line, &langs, 1);
    let data = match msg {
        Message::Data(data) => data,
        other => panic!("expected a record, got {:?}", other),
    };
    assert_eq!(data.properties, vec![(s("P31"), vec![s("Q5")])]);
    let rows = rows_for(&data);
    assert_eq!(rows[0].stream, Stream::Properties);
    assert_eq!(rows[0].cell, "{\"P31\":[\"Q5\"]}");
}

#[test]
fn processing_order_does_not_change_messages() {
    let l1 = "{\"id\":\"Q1\",\"labels\":{},\"descriptions\":{},\"claims\":{}}";
    let l2 = "{\"id\":\"Q2\",\"labels\":{},\"descriptions\":{},\"claims\":{}}";
    let langs = vec![s("en")];
    let first_then_second = vec![process_line(l1, &langs, 1), process_line(l2, &langs, 2)];
    let second_then_first = vec![process_line(l2, &langs, 2), process_line(l1, &langs, 1)];
    assert_eq!(first_then_second[0], second_then_first[1]);
    assert_eq!(first_then_second[1], second_then_first[0]);
}

#[test]
fn sink_reports_errors_and_finishes_on_end() {
    let err = ExtractionError::SchemaViolation(s("No id field"), 2);
    match sink_step(Message::Error(ExtractionError::SchemaViolation(s("No id field"), 2))) {
        SinkAction::Report(reported) => assert_eq!(reported, err),
        other => panic!("expected a report, got {:?}", other),
    }
    match sink_step(Message::End) {
        SinkAction::Finish => {},
        other => panic!("expected the run to finish, got {:?}", other),
    }
}

#[test]
fn encoding_escapes_quotes_and_backslashes() {
    let cell = encode_string_list(&vec![s("a\"b\\c"), s("line\nbreak")]);
    assert_eq!(cell, "[\"a\\\"b\\\\c\",\"line\\nbreak\"]");
}

#[test]
fn property_mappings_encode_as_objects() {
    let props = vec![(s("P1"), vec![s("Q1"), s("Q2")]), (s("P2"), vec![s("Q3")])];
    assert_eq!(encode_props(&props), "{\"P1\":[\"Q1\",\"Q2\"],\"P2\":[\"Q3\"]}");
    let dps = vec![(s("P3"), vec![vec![s("v")], vec![s("t"), s("time")]])];
    assert_eq!(encode_data_props(&dps), "{\"P3\":[[\"v\"],[\"t\",\"time\"]]}");
}

#[test]
fn wiki_rows_appear_for_matching_site() {
    let line = "{\"id\":\"Q3\",\"labels\":{},\"descriptions\":{},\"claims\":{},\"sitelinks\":{\"enwiki\":{\"title\":\"Earth\"}}}";
    let langs = vec![s("en")];
    let msg = process_line(line, &langs, 1);
    let data = match msg {
        Message::Data(data) => data,
        other => panic!("expected a record, got {:?}", other),
    };
    let rows = rows_for(&data);
    assert_eq!(rows.len(), 3);
    assert_eq!(rows[2].stream, Stream::SiteLinks(s("en")));
    assert_eq!(rows[2].qid, "Q3");
    assert_eq!(rows[2].cell, "Earth");
}

#[test]
fn mul_fallback_reaches_rows_through_parser() {
    let line = "{\"id\":\"Q4\",\"labels\":{\"mul\":{\"value\":\"shared\"}},\"descriptions\":{\"mul\":{\"value\":\"common\"}},\"claims\":{}}";
    let langs = vec![s("en"), s("fr")];
    let msg = process_line(line, &langs, 1);
    let data = match msg {
        Message::Data(data) => data,
        other => panic!("expected a record, got {:?}", other),
    };
    assert_eq!(
        data.labels,
        vec![(s("en"), vec![s("shared")]), (s("fr"), vec![s("shared")])],
    );
    assert_eq!(data.description, vec![(s("en"), s("common")), (s("fr"), s("common"))]);
}
