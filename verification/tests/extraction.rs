use wikidata_db::extract::{extract_data, process_claim};
use wikidata_db::model::{ExtractionError, Json};

fn s(text: &str) -> String {
    text.to_owned()
}

fn obj(entries: Vec<(&str, Json)>) -> Json {
    Json::Obj(entries.into_iter().map(|(k, v)| (s(k), v)).collect())
}

fn value_entry(text: &str) -> Json {
    obj(vec![("value", Json::Str(s(text)))])
}

fn item_claim(id: &str) -> Json {
    obj(vec![(
        "mainsnak",
        obj(vec![
            ("datatype", Json::Str(s("wikibase-item"))),
            ("datavalue", obj(vec![("value", obj(vec![("id", Json::Str(s(id)))]))])),
        ]),
    )])
}

fn string_claim(text: &str) -> Json {
    obj(vec![(
        "mainsnak",
        obj(vec![
            ("datatype", Json::Str(s("string"))),
            ("datavalue", obj(vec![("value", Json::Str(s(text)))])),
        ]),
    )])
}

fn time_claim(time: &str) -> Json {
    obj(vec![(
        "mainsnak",
        obj(vec![
            ("datatype", Json::Str(s("time"))),
            ("datavalue", obj(vec![("value", obj(vec![("time", Json::Str(s(time)))]))])),
        ]),
    )])
}

fn minimal_record(id: &str) -> Vec<(String, Json)> {
    vec![
        (s("id"), Json::Str(s(id))),
        (s("labels"), obj(vec![])),
        (s("descriptions"), obj(vec![])),
        (s("claims"), obj(vec![])),
    ]
}

#[test]
fn extracts_minimal_record() {
    let record = Json::Obj(minimal_record("Q1"));
    let langs = vec![s("en")];
    let data = extract_data(&record, &langs, 1).expect("extraction should succeed");
    assert_eq!(data.qid, "Q1");
    assert!(data.labels.is_empty());
    assert!(data.description.is_empty());
    assert!(data.properties.is_empty());
    assert!(data.data_props.is_empty());
    assert!(data.wiki.is_empty());
}

#[test]
fn missing_id_is_schema_violation() {
    let record = obj(vec![("labels", obj(vec![]))]);
    let langs = vec![s("en")];
    let err = extract_data(&record, &langs, 17).expect_err("id is mandatory");
    assert_eq!(err, ExtractionError::SchemaViolation(s("No id field"), 17));
}

#[test]
fn non_object_root_is_schema_violation() {
    let langs = vec![s("en")];
    let err = extract_data(&Json::Str(s("Q1")), &langs, 3).expect_err("root must be an object");
    assert_eq!(err, ExtractionError::SchemaViolation(s("Root object is not a JSON object"), 3));
}

#[test]
fn missing_labels_is_schema_violation() {
    let record = obj(vec![("id", Json::Str(s("Q1")))]);
    let langs = vec![s("en")];
    let err = extract_data(&record, &langs, 2).expect_err("labels are mandatory");
    assert_eq!(err, ExtractionError::SchemaViolation(s("No labels field"), 2));
}

#[test]
fn missing_descriptions_is_schema_violation() {
    let record = obj(vec![("id", Json::Str(s("Q1"))), ("labels", obj(vec![]))]);
    let langs = vec![s("en")];
    let err = extract_data(&record, &langs, 4).expect_err("descriptions are mandatory");
    assert_eq!(err, ExtractionError::SchemaViolation(s("No descriptions field"), 4));
}

#[test]
fn missing_claims_is_schema_violation() {
    let record = obj(vec![
        ("id", Json::Str(s("Q1"))),
        ("labels", obj(vec![])),
        ("descriptions", obj(vec![])),
    ]);
    let langs = vec![s("en")];
    let err = extract_data(&record, &langs, 5).expect_err("claims are mandatory");
    assert_eq!(err, ExtractionError::SchemaViolation(s("No claims field"), 5));
}

#[test]
fn label_for_requested_language() {
    let mut record = minimal_record("Q42");
    record[1].1 = obj(vec![("en", value_entry("Douglas Adams")), ("de", value_entry("anders"))]);
    let langs = vec![s("en")];
    let data = extract_data(&Json::Obj(record), &langs, 1).unwrap();
    assert_eq!(data.labels, vec![(s("en"), vec![s("Douglas Adams")])]);
}

#[test]
fn label_falls_back_to_mul() {
    let mut record = minimal_record("Q5");
    record[1].1 = obj(vec![("mul", value_entry("neutral"))]);
    let langs = vec![s("en")];
    let data = extract_data(&Json::Obj(record), &langs, 1).unwrap();
    assert_eq!(data.labels, vec![(s("en"), vec![s("neutral")])]);
}

#[test]
fn aliases_join_label_sequence() {
    let mut record = minimal_record("Q6");
    record[1].1 = obj(vec![("en", value_entry("primary"))]);
    record.push((
        s("aliases"),
        obj(vec![("en", Json::Arr(vec![value_entry("second"), value_entry("third")]))]),
    ));
    let langs = vec![s("en")];
    let data = extract_data(&Json::Obj(record), &langs, 1).unwrap();
    assert_eq!(data.labels, vec![(s("en"), vec![s("primary"), s("second"), s("third")])]);
}

#[test]
fn alias_element_must_be_object() {
    let mut record = minimal_record("Q6");
    record.push((s("aliases"), obj(vec![("en", Json::Arr(vec![Json::Str(s("bare"))]))])));
    let langs = vec![s("en")];
    let err = extract_data(&Json::Obj(record), &langs, 9).expect_err("alias must be an object");
    assert_eq!(err, ExtractionError::SchemaViolation(s("Aliases not an array"), 9));
}

#[test]
fn description_prefers_language_over_mul() {
    let mut record = minimal_record("Q7");
    record[2].1 = obj(vec![("mul", value_entry("neutral")), ("en", value_entry("specific"))]);
    let langs = vec![s("en")];
    let data = extract_data(&Json::Obj(record), &langs, 1).unwrap();
    assert_eq!(data.description, vec![(s("en"), s("specific"))]);
}

#[test]
fn label_entry_without_value_is_schema_violation() {
    let mut record = minimal_record("Q8");
    record[1].1 = obj(vec![("en", obj(vec![]))]);
    let langs = vec![s("en")];
    let err = extract_data(&Json::Obj(record), &langs, 6).expect_err("value is mandatory");
    assert_eq!(err, ExtractionError::SchemaViolation(s("No value field"), 6));
}

#[test]
fn sitelink_for_requested_language() {
    let mut record = minimal_record("Q9");
    record.push((s("sitelinks"), obj(vec![("enwiki", obj(vec![("title", Json::Str(s("Page")))]))])));
    let langs = vec![s("en")];
    let data = extract_data(&Json::Obj(record), &langs, 1).unwrap();
    assert_eq!(data.wiki, vec![(s("en"), s("Page"))]);
}

#[test]
fn sitelink_other_site_is_ignored() {
    let mut record = minimal_record("Q9");
    record.push((s("sitelinks"), obj(vec![("dewiki", obj(vec![("title", Json::Str(s("Seite")))]))])));
    let langs = vec![s("en")];
    let data = extract_data(&Json::Obj(record), &langs, 1).unwrap();
    assert!(data.wiki.is_empty());
}

#[test]
fn item_claims_collect_identifiers() {
    let claims = Json::Arr(vec![item_claim("Q10"), item_claim("Q11")]);
    let (rel, lit) = process_claim(&claims, 1).unwrap();
    assert_eq!(rel, vec![s("Q10"), s("Q11")]);
    assert!(lit.is_empty());
}

#[test]
fn string_and_time_claims_collect_literals() {
    let claims = Json::Arr(vec![string_claim("plain"), time_claim("+2001-01-01T00:00:00Z")]);
    let (rel, lit) = process_claim(&claims, 1).unwrap();
    assert!(rel.is_empty());
    assert_eq!(lit, vec![vec![s("plain")], vec![s("+2001-01-01T00:00:00Z"), s("time")]]);
}

#[test]
fn item_claim_without_nested_id_is_schema_violation() {
    let claim = obj(vec![(
        "mainsnak",
        obj(vec![
            ("datatype", Json::Str(s("wikibase-item"))),
            ("datavalue", obj(vec![("value", obj(vec![]))])),
        ]),
    )]);
    let claims = Json::Arr(vec![claim]);
    let err = process_claim(&claims, 12).expect_err("the nested id is mandatory");
    assert_eq!(err, ExtractionError::SchemaViolation(s("No id field in value"), 12));
}

#[test]
fn item_claim_error_omits_whole_property() {
    let bad_claim = obj(vec![(
        "mainsnak",
        obj(vec![
            ("datatype", Json::Str(s("wikibase-item"))),
            ("datavalue", obj(vec![("value", obj(vec![]))])),
        ]),
    )]);
    let mut record = minimal_record("Q13");
    record[3].1 = obj(vec![("P1", Json::Arr(vec![item_claim("Q2"), bad_claim]))]);
    let langs = vec![s("en")];
    let err = extract_data(&Json::Obj(record), &langs, 13).expect_err("the record is skipped");
    assert_eq!(err, ExtractionError::SchemaViolation(s("No id field in value"), 13));
}

#[test]
fn unrecognized_datatype_is_silently_dropped() {
    let claim = obj(vec![(
        "mainsnak",
        obj(vec![
            ("datatype", Json::Str(s("currency"))),
            ("datavalue", obj(vec![("value", Json::Str(s("12.5")))])),
        ]),
    )]);
    let claims = Json::Arr(vec![claim]);
    let (rel, lit) = process_claim(&claims, 1).unwrap();
    assert!(rel.is_empty());
    assert!(lit.is_empty());
}

#[test]
fn unrecognized_datatype_leaves_no_property_entry() {
    let claim = obj(vec![(
        "mainsnak",
        obj(vec![
            ("datatype", Json::Str(s("currency"))),
            ("datavalue", obj(vec![("value", Json::Str(s("12.5")))])),
        ]),
    )]);
    let mut record = minimal_record("Q14");
    record[3].1 = obj(vec![("P7", Json::Arr(vec![claim]))]);
    let langs = vec![s("en")];
    let data = extract_data(&Json::Obj(record), &langs, 1).unwrap();
    assert!(data.properties.is_empty());
    assert!(data.data_props.is_empty());
}

#[test]
fn recognized_datatype_requires_datavalue() {
    let claim = obj(vec![("mainsnak", obj(vec![("datatype", Json::Str(s("wikibase-item")))]))]);
    let claims = Json::Arr(vec![claim]);
    let err = process_claim(&claims, 15).expect_err("wikibase-item needs a datavalue");
    assert_eq!(err, ExtractionError::SchemaViolation(s("No datavalue field in mainsnak"), 15));
}

#[test]
fn string_datatype_with_mistyped_datavalue_is_schema_violation() {
    let claim = obj(vec![(
        "mainsnak",
        obj(vec![("datatype", Json::Str(s("string"))), ("datavalue", Json::Str(s("bare")))]),
    )]);
    let claims = Json::Arr(vec![claim]);
    let err = process_claim(&claims, 16).expect_err("datavalue must be an object");
    assert_eq!(err, ExtractionError::SchemaViolation(s("No datavalue field in mainsnak"), 16));
}

#[test]
fn time_claim_with_mistyped_value_is_schema_violation() {
    let claim = obj(vec![(
        "mainsnak",
        obj(vec![
            ("datatype", Json::Str(s("time"))),
            ("datavalue", obj(vec![("value", Json::Str(s("+2001")))])),
        ]),
    )]);
    let claims = Json::Arr(vec![claim]);
    let err = process_claim(&claims, 18).expect_err("a time value must be an object");
    assert_eq!(err, ExtractionError::SchemaViolation(s("No value field in datavalue"), 18));
}

#[test]
fn claim_without_datatype_is_schema_violation() {
    let claim = obj(vec![("mainsnak", obj(vec![]))]);
    let claims = Json::Arr(vec![claim]);
    let err = process_claim(&claims, 19).expect_err("datatype is mandatory");
    assert_eq!(err, ExtractionError::SchemaViolation(s("No datatype field in mainsnak"), 19));
}

#[test]
fn unrecognized_datatype_without_datavalue_is_skipped() {
    let claim = obj(vec![("mainsnak", obj(vec![("datatype", Json::Str(s("currency")))]))]);
    let claims = Json::Arr(vec![claim]);
    let (rel, lit) = process_claim(&claims, 1).unwrap();
    assert!(rel.is_empty());
    assert!(lit.is_empty());
}

#[test]
fn claim_missing_mainsnak_is_schema_violation() {
    let claims = Json::Arr(vec![obj(vec![])]);
    let err = process_claim(&claims, 8).expect_err("mainsnak is mandatory");
    assert_eq!(err, ExtractionError::SchemaViolation(s("No mainsnak field"), 8));
}

#[test]
fn claims_value_must_be_array() {
    let err = process_claim(&Json::Str(s("no")), 21).expect_err("claims map to arrays");
    assert_eq!(err, ExtractionError::SchemaViolation(s("Values not an array"), 21));
}
