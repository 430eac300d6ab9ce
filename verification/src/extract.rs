//! The record extractor: validates one JSON record against the expected
//! schema and produces a `Data` record or a classified error.
//!
//! Every validation rule is stated twice: once as a specification function
//! over the mathematical model, and once as executable code proved equal to
//! it.  The specification functions walk the requested languages (or the
//! claim arrays) from the front; an error short-circuits the walk.

use vstd::prelude::*;
use crate::model::{
    distinct_keys, lemma_push_entry_distinct, lemma_set_entry_distinct, lookup, obj_get,
    push_entry, push_entry_vec, set_entry, set_entry_vec, str_eq, Data, DataModel, ErrModel,
    ExtractionError, Json,
};

verus! {

pub open spec fn sv(d: Seq<char>, line_no: int) -> ErrModel {
    ErrModel::SchemaViolation(d, line_no)
}

/// The `value` field of a label, alias or description entry, which must be
/// present and a string.
pub open spec fn entry_value_spec(entry: Seq<(String, Json)>) -> Result<Seq<char>, Seq<char>> {
    match lookup(entry, "value"@) {
        Some(Json::Str(s)) => Ok(s@),
        Some(_) => Err("Value is not a string"@),
        None => Err("No value field"@),
    }
}

/// What one claim object contributes: a referenced entity identifier, a
/// literal value, or nothing.
pub enum ClaimAddM {
    Rel(Seq<char>),
    Lit(Seq<Seq<char>>),
    Skip,
}

/// Classifies one claim object by its `mainsnak`.  The `datatype` must be
/// present and a string; each of the three recognized datatypes requires a
/// `datavalue` object; a claim of any other datatype contributes nothing;
/// a structural mismatch names the offending field.
pub open spec fn claim_item_spec(v: Json) -> Result<ClaimAddM, Seq<char>> {
    match v {
        Json::Obj(entries) => match lookup(entries@, "mainsnak"@) {
            Some(Json::Obj(ms)) => match lookup(ms@, "datatype"@) {
                Some(Json::Str(dt)) => if dt@ == "wikibase-item"@ {
                    match lookup(ms@, "datavalue"@) {
                        Some(Json::Obj(dv)) => match lookup(dv@, "value"@) {
                            Some(Json::Obj(value)) => match lookup(value@, "id"@) {
                                Some(Json::Str(id)) => Ok(ClaimAddM::Rel(id@)),
                                Some(_) => Err("Id is not a string"@),
                                None => Err("No id field in value"@),
                            },
                            _ => Err("No value field in datavalue"@),
                        },
                        _ => Err("No datavalue field in mainsnak"@),
                    }
                } else if dt@ == "string"@ {
                    match lookup(ms@, "datavalue"@) {
                        Some(Json::Obj(dv)) => match lookup(dv@, "value"@) {
                            Some(Json::Str(s)) => Ok(ClaimAddM::Lit(seq![s@])),
                            Some(_) => Err("Value is not a string"@),
                            None => Err("No value field in datavalue"@),
                        },
                        _ => Err("No datavalue field in mainsnak"@),
                    }
                } else if dt@ == "time"@ {
                    match lookup(ms@, "datavalue"@) {
                        Some(Json::Obj(dv)) => match lookup(dv@, "value"@) {
                            Some(Json::Obj(value)) => match lookup(value@, "time"@) {
                                Some(Json::Str(t)) => Ok(ClaimAddM::Lit(seq![t@, "time"@])),
                                Some(_) => Err("Time is not a string"@),
                                None => Err("No time field in value"@),
                            },
                            _ => Err("No value field in datavalue"@),
                        },
                        _ => Err("No datavalue field in mainsnak"@),
                    }
                } else {
                    Ok(ClaimAddM::Skip)
                },
                Some(_) => Err("Datatype is not a string"@),
                None => Err("No datatype field in mainsnak"@),
            },
            _ => Err("No mainsnak field"@),
        },
        _ => Err("Values not an object"@),
    }
}

/// Folds the contributions of a claim array onto the relational and literal
/// accumulators, stopping at the first structural mismatch.
pub open spec fn claim_items_fold(
    rel: Seq<Seq<char>>,
    lit: Seq<Seq<Seq<char>>>,
    items: Seq<Json>,
) -> Result<(Seq<Seq<char>>, Seq<Seq<Seq<char>>>), Seq<char>>
    decreases items.len(),
{
    if items.len() == 0 {
        Ok((rel, lit))
    } else {
        match claim_item_spec(items[0]) {
            Ok(ClaimAddM::Rel(id)) => claim_items_fold(rel.push(id), lit, items.drop_first()),
            Ok(ClaimAddM::Lit(l)) => claim_items_fold(rel, lit.push(l), items.drop_first()),
            Ok(ClaimAddM::Skip) => claim_items_fold(rel, lit, items.drop_first()),
            Err(d) => Err(d),
        }
    }
}

/// What one property's claim array yields: the referenced identifiers and
/// the literal values, in array order, or the first schema violation.
pub open spec fn spec_process_claim(values: Json, line_no: int) -> Result<
    (Seq<Seq<char>>, Seq<Seq<Seq<char>>>),
    ErrModel,
> {
    match values {
        Json::Arr(items) => match claim_items_fold(Seq::empty(), Seq::empty(), items@) {
            Ok(p) => Ok(p),
            Err(d) => Err(sv(d, line_no)),
        },
        _ => Err(sv("Values not an array"@, line_no)),
    }
}

/// What one claim object contributes, as executable data.
enum ClaimAdd {
    Rel(String),
    Lit(Vec<String>),
    Skip,
}

impl ClaimAdd {
    spec fn model(&self) -> ClaimAddM {
        match self {
            ClaimAdd::Rel(s) => ClaimAddM::Rel(s@),
            ClaimAdd::Lit(l) => ClaimAddM::Lit(l.deep_view()),
            ClaimAdd::Skip => ClaimAddM::Skip,
        }
    }
}

fn claim_item(v: &Json) -> (r: Result<ClaimAdd, String>)
    ensures
        match r {
            Ok(a) => claim_item_spec(*v) == Ok::<ClaimAddM, Seq<char>>(a.model()),
            Err(d) => claim_item_spec(*v) == Err::<ClaimAddM, Seq<char>>(d@),
        },
{
    match v {
        Json::Obj(entries) => match obj_get(entries, "mainsnak") {
            Some(Json::Obj(ms)) => match obj_get(ms, "datatype") {
                Some(Json::Str(dt)) => {
                    if str_eq(dt.as_str(), "wikibase-item") {
                        match obj_get(ms, "datavalue") {
                            Some(Json::Obj(dv)) => match obj_get(dv, "value") {
                                Some(Json::Obj(value)) => match obj_get(value, "id") {
                                    Some(Json::Str(id)) => Ok(ClaimAdd::Rel(id.clone())),
                                    Some(_) => Err("Id is not a string".to_owned()),
                                    None => Err("No id field in value".to_owned()),
                                },
                                _ => Err("No value field in datavalue".to_owned()),
                            },
                            _ => Err("No datavalue field in mainsnak".to_owned()),
                        }
                    } else if str_eq(dt.as_str(), "string") {
                        match obj_get(ms, "datavalue") {
                            Some(Json::Obj(dv)) => match obj_get(dv, "value") {
                                Some(Json::Str(s)) => {
                                    let lit = vec![s.clone()];
                                    proof {
                                        assert(lit.deep_view() =~= seq![s@]);
                                    }
                                    Ok(ClaimAdd::Lit(lit))
                                },
                                Some(_) => Err("Value is not a string".to_owned()),
                                None => Err("No value field in datavalue".to_owned()),
                            },
                            _ => Err("No datavalue field in mainsnak".to_owned()),
                        }
                    } else if str_eq(dt.as_str(), "time") {
                        match obj_get(ms, "datavalue") {
                            Some(Json::Obj(dv)) => match obj_get(dv, "value") {
                                Some(Json::Obj(value)) => match obj_get(value, "time") {
                                    Some(Json::Str(t)) => {
                                        let lit = vec![t.clone(), "time".to_owned()];
                                        proof {
                                            assert(lit.deep_view() =~= seq![t@, "time"@]);
                                        }
                                        Ok(ClaimAdd::Lit(lit))
                                    },
                                    Some(_) => Err("Time is not a string".to_owned()),
                                    None => Err("No time field in value".to_owned()),
                                },
                                _ => Err("No value field in datavalue".to_owned()),
                            },
                            _ => Err("No datavalue field in mainsnak".to_owned()),
                        }
                    } else {
                        Ok(ClaimAdd::Skip)
                    }
                },
                Some(_) => Err("Datatype is not a string".to_owned()),
                None => Err("No datatype field in mainsnak".to_owned()),
            },
            _ => Err("No mainsnak field".to_owned()),
        },
        _ => Err("Values not an object".to_owned()),
    }
}

/// Processes one property's claim array into the identifiers of referenced
/// entities and the literal values it holds.
#[verifier::loop_isolation(false)]
pub fn process_claim(values: &Json, line_no: usize) -> (r: Result<
    (Vec<String>, Vec<Vec<String>>),
    ExtractionError,
>)
    ensures
        match r {
            Ok(p) => spec_process_claim(*values, line_no as int) == Ok::<
                (Seq<Seq<char>>, Seq<Seq<Seq<char>>>),
                ErrModel,
            >((p.0.deep_view(), p.1.deep_view())),
            Err(e) => spec_process_claim(*values, line_no as int) == Err::<
                (Seq<Seq<char>>, Seq<Seq<Seq<char>>>),
                ErrModel,
            >(e@),
        },
{
    let items = match values {
        Json::Arr(items) => items,
        _ => {
            return Err(
                ExtractionError::SchemaViolation("Values not an array".to_owned(), line_no),
            );
        },
    };
    let mut rel: Vec<String> = Vec::new();
    let mut lit: Vec<Vec<String>> = Vec::new();
    let mut i: usize = 0;
    proof {
        assert(rel.deep_view() =~= Seq::<Seq<char>>::empty());
        assert(lit.deep_view() =~= Seq::<Seq<Seq<char>>>::empty());
        assert(items@.skip(0) =~= items@);
    }
    while i < items.len()
        invariant
            i <= items.len(),
            claim_items_fold(Seq::empty(), Seq::empty(), items@) == claim_items_fold(
                rel.deep_view(),
                lit.deep_view(),
                items@.skip(i as int),
            ),
        decreases items.len() - i,
    {
        let ghost rel0 = rel.deep_view();
        let ghost lit0 = lit.deep_view();
        proof {
            assert(items@.skip(i as int)[0] == items@[i as int]);
            assert(items@.skip(i as int).drop_first() =~= items@.skip(i as int + 1));
        }
        match claim_item(&items[i]) {
            Ok(ClaimAdd::Rel(id)) => {
                rel.push(id);
                proof {
                    assert(rel.deep_view() =~= rel0.push(rel@.last()@));
                }
            },
            Ok(ClaimAdd::Lit(l)) => {
                let ghost lv = l.deep_view();
                lit.push(l);
                proof {
                    assert(lit.deep_view() =~= lit0.push(lv));
                }
            },
            Ok(ClaimAdd::Skip) => {},
            Err(d) => {
                proof {
                    assert(items@.skip(i as int).len() > 0);
                    assert(claim_items_fold(rel0, lit0, items@.skip(i as int)) == Err::<
                        (Seq<Seq<char>>, Seq<Seq<Seq<char>>>),
                        Seq<char>,
                    >(d@));
                }
                return Err(ExtractionError::SchemaViolation(d, line_no));
            },
        }
        i += 1;
    }
    proof {
        assert(items@.skip(items@.len() as int) =~= Seq::<Json>::empty());
    }
    Ok((rel, lit))
}

/// The model of the per-language label lists.
pub type LabelsM = Seq<(Seq<char>, Seq<Seq<char>>)>;

/// The model of a language-to-string mapping (descriptions, site links).
pub type StrMapM = Seq<(Seq<char>, Seq<char>)>;

/// The model of the relational-properties mapping.
pub type PropsM = Seq<(Seq<char>, Seq<Seq<char>>)>;

/// The model of the literal-properties mapping.
pub type DataPropsM = Seq<(Seq<char>, Seq<Seq<Seq<char>>>)>;

/// Appends an entry's `value` string to the label list of `lang`.
pub open spec fn labels_entry_push(
    entry: Seq<(String, Json)>,
    m: LabelsM,
    lang: Seq<char>,
) -> Result<LabelsM, Seq<char>> {
    match entry_value_spec(entry) {
        Ok(s) => Ok(push_entry(m, lang, s)),
        Err(d) => Err(d),
    }
}

/// One language of the `labels` field: the language-specific entry wins,
/// the language-neutral `mul` entry is the fallback, and absence of both is
/// no error.
pub open spec fn labels_step(lo: Seq<(String, Json)>, m: LabelsM, lang: Seq<char>) -> Result<
    LabelsM,
    Seq<char>,
> {
    match lookup(lo, lang) {
        Some(Json::Obj(entry)) => labels_entry_push(entry@, m, lang),
        _ => match lookup(lo, "mul"@) {
            Some(Json::Obj(entry)) => labels_entry_push(entry@, m, lang),
            _ => Ok(m),
        },
    }
}

pub open spec fn labels_fold(lo: Seq<(String, Json)>, m: LabelsM, langs: Seq<Seq<char>>) -> Result<
    LabelsM,
    Seq<char>,
>
    decreases langs.len(),
{
    if langs.len() == 0 {
        Ok(m)
    } else {
        match labels_step(lo, m, langs[0]) {
            Ok(m2) => labels_fold(lo, m2, langs.drop_first()),
            Err(d) => Err(d),
        }
    }
}

/// Every element of an alias array must be an object with a string `value`;
/// each value joins the label list of `lang`.
pub open spec fn alias_items_fold(m: LabelsM, lang: Seq<char>, items: Seq<Json>) -> Result<
    LabelsM,
    Seq<char>,
>
    decreases items.len(),
{
    if items.len() == 0 {
        Ok(m)
    } else {
        match items[0] {
            Json::Obj(entry) => match labels_entry_push(entry@, m, lang) {
                Ok(m2) => alias_items_fold(m2, lang, items.drop_first()),
                Err(d) => Err(d),
            },
            _ => Err("Aliases not an array"@),
        }
    }
}

/// One language of the optional `aliases` field, with the `mul` fallback.
pub open spec fn aliases_step(ao: Seq<(String, Json)>, m: LabelsM, lang: Seq<char>) -> Result<
    LabelsM,
    Seq<char>,
> {
    match lookup(ao, lang) {
        Some(Json::Arr(items)) => alias_items_fold(m, lang, items@),
        _ => match lookup(ao, "mul"@) {
            Some(Json::Arr(items)) => alias_items_fold(m, lang, items@),
            _ => Ok(m),
        },
    }
}

pub open spec fn aliases_fold(
    ao: Seq<(String, Json)>,
    m: LabelsM,
    langs: Seq<Seq<char>>,
) -> Result<LabelsM, Seq<char>>
    decreases langs.len(),
{
    if langs.len() == 0 {
        Ok(m)
    } else {
        match aliases_step(ao, m, langs[0]) {
            Ok(m2) => aliases_fold(ao, m2, langs.drop_first()),
            Err(d) => Err(d),
        }
    }
}

/// One language of the `descriptions` field: at most one description per
/// language, the language-specific entry before the `mul` fallback.
pub open spec fn desc_step(dobj: Seq<(String, Json)>, m: StrMapM, lang: Seq<char>) -> Result<
    StrMapM,
    Seq<char>,
> {
    match lookup(dobj, lang) {
        Some(Json::Obj(entry)) => match entry_value_spec(entry@) {
            Ok(s) => Ok(set_entry(m, lang, s)),
            Err(d) => Err(d),
        },
        _ => match lookup(dobj, "mul"@) {
            Some(Json::Obj(entry)) => match entry_value_spec(entry@) {
                Ok(s) => Ok(set_entry(m, lang, s)),
                Err(d) => Err(d),
            },
            _ => Ok(m),
        },
    }
}

pub open spec fn desc_fold(dobj: Seq<(String, Json)>, m: StrMapM, langs: Seq<Seq<char>>) -> Result<
    StrMapM,
    Seq<char>,
>
    decreases langs.len(),
{
    if langs.len() == 0 {
        Ok(m)
    } else {
        match desc_step(dobj, m, langs[0]) {
            Ok(m2) => desc_fold(dobj, m2, langs.drop_first()),
            Err(d) => Err(d),
        }
    }
}

/// The `claims` field, property by property: a property is recorded under
/// `relationalProperties` or `literalProperties` only when its claim array
/// contributed at least one value of that kind.
pub open spec fn claims_fold(
    props: PropsM,
    dps: DataPropsM,
    entries: Seq<(String, Json)>,
    line_no: int,
) -> Result<(PropsM, DataPropsM), ErrModel>
    decreases entries.len(),
{
    if entries.len() == 0 {
        Ok((props, dps))
    } else {
        match spec_process_claim(entries[0].1, line_no) {
            Err(e) => Err(e),
            Ok((rel, lit)) => {
                let props2 = if rel.len() > 0 {
                    set_entry(props, entries[0].0@, rel)
                } else {
                    props
                };
                let dps2 = if lit.len() > 0 {
                    set_entry(dps, entries[0].0@, lit)
                } else {
                    dps
                };
                claims_fold(props2, dps2, entries.drop_first(), line_no)
            },
        }
    }
}

/// One language of the optional `sitelinks` field: the site key is the
/// language code with the fixed site suffix appended.
pub open spec fn site_step(so: Seq<(String, Json)>, m: StrMapM, lang: Seq<char>) -> Result<
    StrMapM,
    Seq<char>,
> {
    match lookup(so, lang + "wiki"@) {
        Some(Json::Obj(entry)) => match lookup(entry@, "title"@) {
            Some(Json::Str(t)) => Ok(set_entry(m, lang, t@)),
            Some(_) => Err("Title is not a string"@),
            None => Err("No title field"@),
        },
        _ => Ok(m),
    }
}

pub open spec fn site_fold(so: Seq<(String, Json)>, m: StrMapM, langs: Seq<Seq<char>>) -> Result<
    StrMapM,
    Seq<char>,
>
    decreases langs.len(),
{
    if langs.len() == 0 {
        Ok(m)
    } else {
        match site_step(so, m, langs[0]) {
            Ok(m2) => site_fold(so, m2, langs.drop_first()),
            Err(d) => Err(d),
        }
    }
}

/// The record's identifier, which must exist and be a string.
pub open spec fn spec_qid(obj: Seq<(String, Json)>) -> Result<Seq<char>, Seq<char>> {
    match lookup(obj, "id"@) {
        Some(Json::Str(s)) => Ok(s@),
        Some(_) => Err("Id is not a string"@),
        None => Err("No id field"@),
    }
}

pub open spec fn spec_labels_field(obj: Seq<(String, Json)>, langs: Seq<Seq<char>>) -> Result<
    LabelsM,
    Seq<char>,
> {
    match lookup(obj, "labels"@) {
        Some(Json::Obj(lo)) => labels_fold(lo@, Seq::empty(), langs),
        _ => Err("No labels field"@),
    }
}

pub open spec fn spec_aliases_field(
    obj: Seq<(String, Json)>,
    langs: Seq<Seq<char>>,
    m: LabelsM,
) -> Result<LabelsM, Seq<char>> {
    match lookup(obj, "aliases"@) {
        Some(Json::Obj(ao)) => aliases_fold(ao@, m, langs),
        _ => Ok(m),
    }
}

pub open spec fn spec_desc_field(obj: Seq<(String, Json)>, langs: Seq<Seq<char>>) -> Result<
    StrMapM,
    Seq<char>,
> {
    match lookup(obj, "descriptions"@) {
        Some(Json::Obj(dobj)) => desc_fold(dobj@, Seq::empty(), langs),
        _ => Err("No descriptions field"@),
    }
}

pub open spec fn spec_claims_field(obj: Seq<(String, Json)>, line_no: int) -> Result<
    (PropsM, DataPropsM),
    ErrModel,
> {
    match lookup(obj, "claims"@) {
        Some(Json::Obj(co)) => claims_fold(Seq::empty(), Seq::empty(), co@, line_no),
        _ => Err(sv("No claims field"@, line_no)),
    }
}

pub open spec fn spec_site_field(obj: Seq<(String, Json)>, langs: Seq<Seq<char>>) -> Result<
    StrMapM,
    Seq<char>,
> {
    match lookup(obj, "sitelinks"@) {
        Some(Json::Obj(so)) => site_fold(so@, Seq::empty(), langs),
        _ => Ok(Seq::empty()),
    }
}

/// What extraction yields for one record: the validation sequence of the
/// schema, each step short-circuiting to the first violation.
pub open spec fn spec_extract(j: Json, langs: Seq<Seq<char>>, line_no: int) -> Result<
    DataModel,
    ErrModel,
> {
    match j {
        Json::Obj(entries) => {
            let obj = entries@;
            match spec_qid(obj) {
                Err(d) => Err(sv(d, line_no)),
                Ok(qid) => match spec_labels_field(obj, langs) {
                    Err(d) => Err(sv(d, line_no)),
                    Ok(m1) => match spec_aliases_field(obj, langs, m1) {
                        Err(d) => Err(sv(d, line_no)),
                        Ok(labels) => match spec_desc_field(obj, langs) {
                            Err(d) => Err(sv(d, line_no)),
                            Ok(description) => match spec_claims_field(obj, line_no) {
                                Err(e) => Err(e),
                                Ok(pd) => match spec_site_field(obj, langs) {
                                    Err(d) => Err(sv(d, line_no)),
                                    Ok(wiki) => Ok(
                                        DataModel {
                                            qid,
                                            labels,
                                            description,
                                            properties: pd.0,
                                            data_props: pd.1,
                                            wiki,
                                        },
                                    ),
                                },
                            },
                        },
                    },
                },
            }
        },
        _ => Err(sv("Root object is not a JSON object"@, line_no)),
    }
}

fn entry_value(entry: &Vec<(String, Json)>) -> (r: Result<String, String>)
    ensures
        match r {
            Ok(s) => entry_value_spec(entry@) == Ok::<Seq<char>, Seq<char>>(s@),
            Err(d) => entry_value_spec(entry@) == Err::<Seq<char>, Seq<char>>(d@),
        },
{
    match obj_get(entry, "value") {
        Some(Json::Str(s)) => Ok(s.clone()),
        Some(_) => Err("Value is not a string".to_owned()),
        None => Err("No value field".to_owned()),
    }
}

#[verifier::loop_isolation(false)]
fn get_labels(lo: &Vec<(String, Json)>, langs: &Vec<String>) -> (r: Result<
    Vec<(String, Vec<String>)>,
    String,
>)
    ensures
        match r {
            Ok(m) => labels_fold(lo@, Seq::empty(), langs.deep_view()) == Ok::<LabelsM, Seq<char>>(
                m.deep_view(),
            ),
            Err(d) => labels_fold(lo@, Seq::empty(), langs.deep_view()) == Err::<
                LabelsM,
                Seq<char>,
            >(d@),
        },
{
    let ghost lv = langs.deep_view();
    let mut m: Vec<(String, Vec<String>)> = Vec::new();
    let mut i: usize = 0;
    proof {
        assert(m.deep_view() =~= Seq::<(Seq<char>, Seq<Seq<char>>)>::empty());
        assert(lv.skip(0) =~= lv);
    }
    while i < langs.len()
        invariant
            i <= langs.len(),
            labels_fold(lo@, Seq::empty(), lv) == labels_fold(lo@, m.deep_view(), lv.skip(i as int)),
        decreases langs.len() - i,
    {
        let ghost m0 = m.deep_view();
        let lang = &langs[i];
        proof {
            assert(lv[i as int] == langs@[i as int]@);
            assert(lv.skip(i as int)[0] == lv[i as int]);
            assert(lv.skip(i as int).drop_first() =~= lv.skip(i as int + 1));
        }
        let chosen: Option<&Vec<(String, Json)>> = match obj_get(lo, lang.as_str()) {
            Some(Json::Obj(entry)) => Some(entry),
            _ => match obj_get(lo, "mul") {
                Some(Json::Obj(entry)) => Some(entry),
                _ => None,
            },
        };
        match chosen {
            Some(entry) => match entry_value(entry) {
                Ok(s) => {
                    push_entry_vec(&mut m, lang, s);
                    proof {
                        assert(labels_step(lo@, m0, lv[i as int]) == Ok::<LabelsM, Seq<char>>(
                            m.deep_view(),
                        ));
                    }
                },
                Err(d) => {
                    proof {
                        assert(labels_step(lo@, m0, lv[i as int]) == Err::<LabelsM, Seq<char>>(d@));
                    }
                    return Err(d);
                },
            },
            None => {
                proof {
                    assert(labels_step(lo@, m0, lv[i as int]) == Ok::<LabelsM, Seq<char>>(m0));
                }
            },
        }
        i += 1;
    }
    proof {
        assert(lv.skip(lv.len() as int) =~= Seq::<Seq<char>>::empty());
    }
    Ok(m)
}

#[verifier::loop_isolation(false)]
fn add_aliases(ao: &Vec<(String, Json)>, langs: &Vec<String>, m: Vec<(String, Vec<String>)>) -> (r:
    Result<Vec<(String, Vec<String>)>, String>)
    ensures
        match r {
            Ok(m2) => aliases_fold(ao@, m.deep_view(), langs.deep_view()) == Ok::<
                LabelsM,
                Seq<char>,
            >(m2.deep_view()),
            Err(d) => aliases_fold(ao@, m.deep_view(), langs.deep_view()) == Err::<
                LabelsM,
                Seq<char>,
            >(d@),
        },
{
    let ghost lv = langs.deep_view();
    let ghost minit = m.deep_view();
    let mut m = m;
    let mut i: usize = 0;
    proof {
        assert(lv.skip(0) =~= lv);
    }
    while i < langs.len()
        invariant
            i <= langs.len(),
            aliases_fold(ao@, minit, lv) == aliases_fold(ao@, m.deep_view(), lv.skip(i as int)),
        decreases langs.len() - i,
    {
        let ghost mlang0 = m.deep_view();
        let lang = &langs[i];
        proof {
            assert(lv[i as int] == langs@[i as int]@);
            assert(lv.skip(i as int)[0] == lv[i as int]);
            assert(lv.skip(i as int).drop_first() =~= lv.skip(i as int + 1));
        }
        let chosen: Option<&Vec<Json>> = match obj_get(ao, lang.as_str()) {
            Some(Json::Arr(items)) => Some(items),
            _ => match obj_get(ao, "mul") {
                Some(Json::Arr(items)) => Some(items),
                _ => None,
            },
        };
        match chosen {
            Some(items) => {
                let mut j: usize = 0;
                proof {
                    assert(items@.skip(0) =~= items@);
                }
                while j < items.len()
                    invariant
                        j <= items.len(),
                        alias_items_fold(mlang0, lv[i as int], items@) == alias_items_fold(
                            m.deep_view(),
                            lv[i as int],
                            items@.skip(j as int),
                        ),
                    decreases items.len() - j,
                {
                    let ghost mj0 = m.deep_view();
                    proof {
                        assert(items@.skip(j as int)[0] == items@[j as int]);
                        assert(items@.skip(j as int).drop_first() =~= items@.skip(j as int + 1));
                    }
                    match &items[j] {
                        Json::Obj(entry) => match entry_value(entry) {
                            Ok(s) => {
                                push_entry_vec(&mut m, lang, s);
                            },
                            Err(d) => {
                                proof {
                                    assert(alias_items_fold(mlang0, lv[i as int], items@)
                                        == Err::<LabelsM, Seq<char>>(d@));
                                    assert(aliases_step(ao@, mlang0, lv[i as int]) == Err::<
                                        LabelsM,
                                        Seq<char>,
                                    >(d@));
                                }
                                return Err(d);
                            },
                        },
                        _ => {
                            proof {
                                assert(alias_items_fold(mlang0, lv[i as int], items@) == Err::<
                                    LabelsM,
                                    Seq<char>,
                                >("Aliases not an array"@));
                                assert(aliases_step(ao@, mlang0, lv[i as int]) == Err::<
                                    LabelsM,
                                    Seq<char>,
                                >("Aliases not an array"@));
                            }
                            return Err("Aliases not an array".to_owned());
                        },
                    }
                    j += 1;
                }
                proof {
                    assert(items@.skip(items@.len() as int) =~= Seq::<Json>::empty());
                    assert(aliases_step(ao@, mlang0, lv[i as int]) == Ok::<LabelsM, Seq<char>>(
                        m.deep_view(),
                    ));
                }
            },
            None => {
                proof {
                    assert(aliases_step(ao@, mlang0, lv[i as int]) == Ok::<LabelsM, Seq<char>>(
                        mlang0,
                    ));
                }
            },
        }
        i += 1;
    }
    proof {
        assert(lv.skip(lv.len() as int) =~= Seq::<Seq<char>>::empty());
    }
    Ok(m)
}

#[verifier::loop_isolation(false)]
fn get_descriptions(dobj: &Vec<(String, Json)>, langs: &Vec<String>) -> (r: Result<
    Vec<(String, String)>,
    String,
>)
    ensures
        match r {
            Ok(m) => desc_fold(dobj@, Seq::empty(), langs.deep_view()) == Ok::<StrMapM, Seq<char>>(
                m.deep_view(),
            ),
            Err(d) => desc_fold(dobj@, Seq::empty(), langs.deep_view()) == Err::<
                StrMapM,
                Seq<char>,
            >(d@),
        },
{
    let ghost lv = langs.deep_view();
    let mut m: Vec<(String, String)> = Vec::new();
    let mut i: usize = 0;
    proof {
        assert(m.deep_view() =~= Seq::<(Seq<char>, Seq<char>)>::empty());
        assert(lv.skip(0) =~= lv);
    }
    while i < langs.len()
        invariant
            i <= langs.len(),
            desc_fold(dobj@, Seq::empty(), lv) == desc_fold(dobj@, m.deep_view(), lv.skip(i as int)),
        decreases langs.len() - i,
    {
        let ghost m0 = m.deep_view();
        let lang = &langs[i];
        proof {
            assert(lv[i as int] == langs@[i as int]@);
            assert(lv.skip(i as int)[0] == lv[i as int]);
            assert(lv.skip(i as int).drop_first() =~= lv.skip(i as int + 1));
        }
        let chosen: Option<&Vec<(String, Json)>> = match obj_get(dobj, lang.as_str()) {
            Some(Json::Obj(entry)) => Some(entry),
            _ => match obj_get(dobj, "mul") {
                Some(Json::Obj(entry)) => Some(entry),
                _ => None,
            },
        };
        match chosen {
            Some(entry) => match entry_value(entry) {
                Ok(s) => {
                    set_entry_vec(&mut m, lang, s);
                    proof {
                        assert(desc_step(dobj@, m0, lv[i as int]) == Ok::<StrMapM, Seq<char>>(
                            m.deep_view(),
                        ));
                    }
                },
                Err(d) => {
                    proof {
                        assert(desc_step(dobj@, m0, lv[i as int]) == Err::<StrMapM, Seq<char>>(d@));
                    }
                    return Err(d);
                },
            },
            None => {
                proof {
                    assert(desc_step(dobj@, m0, lv[i as int]) == Ok::<StrMapM, Seq<char>>(m0));
                }
            },
        }
        i += 1;
    }
    proof {
        assert(lv.skip(lv.len() as int) =~= Seq::<Seq<char>>::empty());
    }
    Ok(m)
}

#[verifier::loop_isolation(false)]
fn get_claims(co: &Vec<(String, Json)>, line_no: usize) -> (r: Result<
    (Vec<(String, Vec<String>)>, Vec<(String, Vec<Vec<String>>)>),
    ExtractionError,
>)
    ensures
        match r {
            Ok(p) => claims_fold(Seq::empty(), Seq::empty(), co@, line_no as int) == Ok::<
                (PropsM, DataPropsM),
                ErrModel,
            >((p.0.deep_view(), p.1.deep_view())),
            Err(e) => claims_fold(Seq::empty(), Seq::empty(), co@, line_no as int) == Err::<
                (PropsM, DataPropsM),
                ErrModel,
            >(e@),
        },
{
    let mut props: Vec<(String, Vec<String>)> = Vec::new();
    let mut dps: Vec<(String, Vec<Vec<String>>)> = Vec::new();
    let mut i: usize = 0;
    proof {
        assert(props.deep_view() =~= Seq::<(Seq<char>, Seq<Seq<char>>)>::empty());
        assert(dps.deep_view() =~= Seq::<(Seq<char>, Seq<Seq<Seq<char>>>)>::empty());
        assert(co@.skip(0) =~= co@);
    }
    while i < co.len()
        invariant
            i <= co.len(),
            claims_fold(Seq::empty(), Seq::empty(), co@, line_no as int) == claims_fold(
                props.deep_view(),
                dps.deep_view(),
                co@.skip(i as int),
                line_no as int,
            ),
        decreases co.len() - i,
    {
        let ghost p0 = props.deep_view();
        let ghost d0 = dps.deep_view();
        proof {
            assert(co@.skip(i as int)[0] == co@[i as int]);
            assert(co@.skip(i as int).drop_first() =~= co@.skip(i as int + 1));
        }
        let pair = &co[i];
        match process_claim(&pair.1, line_no) {
            Err(e) => {
                return Err(e);
            },
            Ok((rel, lit)) => {
                let ghost relv = rel.deep_view();
                let ghost litv = lit.deep_view();
                proof {
                    assert(relv.len() == rel@.len());
                    assert(litv.len() == lit@.len());
                }
                if rel.len() > 0 {
                    set_entry_vec(&mut props, &pair.0, rel);
                }
                if lit.len() > 0 {
                    set_entry_vec(&mut dps, &pair.0, lit);
                }
            },
        }
        i += 1;
    }
    proof {
        assert(co@.skip(co@.len() as int) =~= Seq::<(String, Json)>::empty());
    }
    Ok((props, dps))
}

#[verifier::loop_isolation(false)]
fn get_sitelinks(so: &Vec<(String, Json)>, langs: &Vec<String>) -> (r: Result<
    Vec<(String, String)>,
    String,
>)
    ensures
        match r {
            Ok(m) => site_fold(so@, Seq::empty(), langs.deep_view()) == Ok::<StrMapM, Seq<char>>(
                m.deep_view(),
            ),
            Err(d) => site_fold(so@, Seq::empty(), langs.deep_view()) == Err::<StrMapM, Seq<char>>(
                d@,
            ),
        },
{
    let ghost lv = langs.deep_view();
    let mut m: Vec<(String, String)> = Vec::new();
    let mut i: usize = 0;
    proof {
        assert(m.deep_view() =~= Seq::<(Seq<char>, Seq<char>)>::empty());
        assert(lv.skip(0) =~= lv);
    }
    while i < langs.len()
        invariant
            i <= langs.len(),
            site_fold(so@, Seq::empty(), lv) == site_fold(so@, m.deep_view(), lv.skip(i as int)),
        decreases langs.len() - i,
    {
        let ghost m0 = m.deep_view();
        let lang = &langs[i];
        proof {
            assert(lv[i as int] == langs@[i as int]@);
            assert(lv.skip(i as int)[0] == lv[i as int]);
            assert(lv.skip(i as int).drop_first() =~= lv.skip(i as int + 1));
        }
        let key = lang.clone().concat("wiki");
        match obj_get(so, key.as_str()) {
            Some(Json::Obj(entry)) => match obj_get(entry, "title") {
                Some(Json::Str(t)) => {
                    set_entry_vec(&mut m, lang, t.clone());
                    proof {
                        assert(site_step(so@, m0, lv[i as int]) == Ok::<StrMapM, Seq<char>>(
                            m.deep_view(),
                        ));
                    }
                },
                Some(_) => {
                    proof {
                        assert(site_step(so@, m0, lv[i as int]) == Err::<StrMapM, Seq<char>>(
                            "Title is not a string"@,
                        ));
                    }
                    return Err("Title is not a string".to_owned());
                },
                None => {
                    proof {
                        assert(site_step(so@, m0, lv[i as int]) == Err::<StrMapM, Seq<char>>(
                            "No title field"@,
                        ));
                    }
                    return Err("No title field".to_owned());
                },
            },
            _ => {
                proof {
                    assert(site_step(so@, m0, lv[i as int]) == Ok::<StrMapM, Seq<char>>(m0));
                }
            },
        }
        i += 1;
    }
    proof {
        assert(lv.skip(lv.len() as int) =~= Seq::<Seq<char>>::empty());
    }
    Ok(m)
}

/// Validates one parsed record against the schema and extracts its fields
/// for the requested languages.
pub fn extract_data(json: &Json, langs: &Vec<String>, line_no: usize) -> (r: Result<
    Data,
    ExtractionError,
>)
    ensures
        match r {
            Ok(d) => spec_extract(*json, langs.deep_view(), line_no as int) == Ok::<
                DataModel,
                ErrModel,
            >(d@),
            Err(e) => spec_extract(*json, langs.deep_view(), line_no as int) == Err::<
                DataModel,
                ErrModel,
            >(e@),
        },
{
    let obj = match json {
        Json::Obj(entries) => entries,
        _ => {
            return Err(
                ExtractionError::SchemaViolation(
                    "Root object is not a JSON object".to_owned(),
                    line_no,
                ),
            );
        },
    };
    let qid = match obj_get(obj, "id") {
        Some(Json::Str(s)) => s.clone(),
        Some(_) => {
            return Err(ExtractionError::SchemaViolation("Id is not a string".to_owned(), line_no));
        },
        None => {
            return Err(ExtractionError::SchemaViolation("No id field".to_owned(), line_no));
        },
    };
    let labels0 = match obj_get(obj, "labels") {
        Some(Json::Obj(lo)) => match get_labels(lo, langs) {
            Ok(m) => m,
            Err(d) => {
                return Err(ExtractionError::SchemaViolation(d, line_no));
            },
        },
        _ => {
            return Err(ExtractionError::SchemaViolation("No labels field".to_owned(), line_no));
        },
    };
    let labels = match obj_get(obj, "aliases") {
        Some(Json::Obj(ao)) => match add_aliases(ao, langs, labels0) {
            Ok(m) => m,
            Err(d) => {
                return Err(ExtractionError::SchemaViolation(d, line_no));
            },
        },
        _ => labels0,
    };
    let description = match obj_get(obj, "descriptions") {
        Some(Json::Obj(dobj)) => match get_descriptions(dobj, langs) {
            Ok(m) => m,
            Err(d) => {
                return Err(ExtractionError::SchemaViolation(d, line_no));
            },
        },
        _ => {
            return Err(
                ExtractionError::SchemaViolation("No descriptions field".to_owned(), line_no),
            );
        },
    };
    let (properties, data_props) = match obj_get(obj, "claims") {
        Some(Json::Obj(co)) => match get_claims(co, line_no) {
            Ok(p) => p,
            Err(e) => {
                return Err(e);
            },
        },
        _ => {
            return Err(ExtractionError::SchemaViolation("No claims field".to_owned(), line_no));
        },
    };
    let wiki = match obj_get(obj, "sitelinks") {
        Some(Json::Obj(so)) => match get_sitelinks(so, langs) {
            Ok(m) => m,
            Err(d) => {
                return Err(ExtractionError::SchemaViolation(d, line_no));
            },
        },
        _ => {
            let empty_wiki: Vec<(String, String)> = Vec::new();
            proof {
                assert(empty_wiki.deep_view() =~= Seq::<(Seq<char>, Seq<char>)>::empty());
            }
            empty_wiki
        },
    };
    Ok(Data { qid, labels, description, properties, data_props, wiki })
}

proof fn lemma_labels_step_distinct(lo: Seq<(String, Json)>, m: LabelsM, lang: Seq<char>)
    requires
        distinct_keys(m),
    ensures
        labels_step(lo, m, lang) matches Ok(m2) ==> distinct_keys(m2),
{
    match entry_value_spec_of(lo, lang) {
        Some(s) => lemma_push_entry_distinct(m, lang, s),
        None => {},
    }
}

/// The label string that `labels_step` would push for `lang`, when it
/// pushes one.
spec fn entry_value_spec_of(lo: Seq<(String, Json)>, lang: Seq<char>) -> Option<Seq<char>> {
    match lookup(lo, lang) {
        Some(Json::Obj(entry)) => match entry_value_spec(entry@) {
            Ok(s) => Some(s),
            Err(_) => None,
        },
        _ => match lookup(lo, "mul"@) {
            Some(Json::Obj(entry)) => match entry_value_spec(entry@) {
                Ok(s) => Some(s),
                Err(_) => None,
            },
            _ => None,
        },
    }
}

proof fn lemma_labels_fold_distinct(lo: Seq<(String, Json)>, m: LabelsM, langs: Seq<Seq<char>>)
    requires
        distinct_keys(m),
    ensures
        labels_fold(lo, m, langs) matches Ok(m2) ==> distinct_keys(m2),
    decreases langs.len(),
{
    if langs.len() > 0 {
        lemma_labels_step_distinct(lo, m, langs[0]);
        match labels_step(lo, m, langs[0]) {
            Ok(m2) => lemma_labels_fold_distinct(lo, m2, langs.drop_first()),
            Err(_) => {},
        }
    }
}

proof fn lemma_alias_items_fold_distinct(m: LabelsM, lang: Seq<char>, items: Seq<Json>)
    requires
        distinct_keys(m),
    ensures
        alias_items_fold(m, lang, items) matches Ok(m2) ==> distinct_keys(m2),
    decreases items.len(),
{
    if items.len() > 0 {
        match items[0] {
            Json::Obj(entry) => match entry_value_spec(entry@) {
                Ok(s) => {
                    lemma_push_entry_distinct(m, lang, s);
                    lemma_alias_items_fold_distinct(push_entry(m, lang, s), lang, items.drop_first());
                },
                Err(_) => {},
            },
            _ => {},
        }
    }
}

proof fn lemma_aliases_fold_distinct(ao: Seq<(String, Json)>, m: LabelsM, langs: Seq<Seq<char>>)
    requires
        distinct_keys(m),
    ensures
        aliases_fold(ao, m, langs) matches Ok(m2) ==> distinct_keys(m2),
    decreases langs.len(),
{
    if langs.len() > 0 {
        match lookup(ao, langs[0]) {
            Some(Json::Arr(items)) => lemma_alias_items_fold_distinct(m, langs[0], items@),
            _ => match lookup(ao, "mul"@) {
                Some(Json::Arr(items)) => lemma_alias_items_fold_distinct(m, langs[0], items@),
                _ => {},
            },
        }
        match aliases_step(ao, m, langs[0]) {
            Ok(m2) => lemma_aliases_fold_distinct(ao, m2, langs.drop_first()),
            Err(_) => {},
        }
    }
}

proof fn lemma_desc_fold_distinct(dobj: Seq<(String, Json)>, m: StrMapM, langs: Seq<Seq<char>>)
    requires
        distinct_keys(m),
    ensures
        desc_fold(dobj, m, langs) matches Ok(m2) ==> distinct_keys(m2),
    decreases langs.len(),
{
    if langs.len() > 0 {
        match lookup(dobj, langs[0]) {
            Some(Json::Obj(entry)) => match entry_value_spec(entry@) {
                Ok(s) => lemma_set_entry_distinct(m, langs[0], s),
                Err(_) => {},
            },
            _ => match lookup(dobj, "mul"@) {
                Some(Json::Obj(entry)) => match entry_value_spec(entry@) {
                    Ok(s) => lemma_set_entry_distinct(m, langs[0], s),
                    Err(_) => {},
                },
                _ => {},
            },
        }
        match desc_step(dobj, m, langs[0]) {
            Ok(m2) => lemma_desc_fold_distinct(dobj, m2, langs.drop_first()),
            Err(_) => {},
        }
    }
}

proof fn lemma_claims_fold_distinct(
    props: PropsM,
    dps: DataPropsM,
    entries: Seq<(String, Json)>,
    line_no: int,
)
    requires
        distinct_keys(props),
        distinct_keys(dps),
    ensures
        claims_fold(props, dps, entries, line_no) matches Ok(pd) ==> distinct_keys(pd.0)
            && distinct_keys(pd.1),
    decreases entries.len(),
{
    if entries.len() > 0 {
        match spec_process_claim(entries[0].1, line_no) {
            Err(_) => {},
            Ok((rel, lit)) => {
                let props2 = if rel.len() > 0 {
                    set_entry(props, entries[0].0@, rel)
                } else {
                    props
                };
                let dps2 = if lit.len() > 0 {
                    set_entry(dps, entries[0].0@, lit)
                } else {
                    dps
                };
                if rel.len() > 0 {
                    lemma_set_entry_distinct(props, entries[0].0@, rel);
                }
                if lit.len() > 0 {
                    lemma_set_entry_distinct(dps, entries[0].0@, lit);
                }
                lemma_claims_fold_distinct(props2, dps2, entries.drop_first(), line_no);
            },
        }
    }
}

proof fn lemma_site_fold_distinct(so: Seq<(String, Json)>, m: StrMapM, langs: Seq<Seq<char>>)
    requires
        distinct_keys(m),
    ensures
        site_fold(so, m, langs) matches Ok(m2) ==> distinct_keys(m2),
    decreases langs.len(),
{
    if langs.len() > 0 {
        match lookup(so, langs[0] + "wiki"@) {
            Some(Json::Obj(entry)) => match lookup(entry@, "title"@) {
                Some(Json::Str(t)) => lemma_set_entry_distinct(m, langs[0], t@),
                _ => {},
            },
            _ => {},
        }
        match site_step(so, m, langs[0]) {
            Ok(m2) => lemma_site_fold_distinct(so, m2, langs.drop_first()),
            Err(_) => {},
        }
    }
}

/// Law: a record without an `id` field is always rejected, with a
/// violation citing the `id` field and carrying the record's line number,
/// whatever else the record holds.
pub proof fn lemma_missing_id(entries: Vec<(String, Json)>, langs: Seq<Seq<char>>, line_no: int)
    requires
        lookup(entries@, "id"@) is None,
    ensures
        spec_extract(Json::Obj(entries), langs, line_no) == Err::<DataModel, ErrModel>(
            sv("No id field"@, line_no),
        ),
{
}

/// Law: a claim of an unrecognized datatype is silently dropped, whatever
/// its `datavalue` holds: it contributes to neither property mapping and
/// raises no error.
pub proof fn lemma_unrecognized_datatype_skipped(
    entries: Vec<(String, Json)>,
    ms: Vec<(String, Json)>,
    dt: String,
)
    requires
        lookup(entries@, "mainsnak"@) == Some(Json::Obj(ms)),
        lookup(ms@, "datatype"@) == Some(Json::Str(dt)),
        dt@ != "wikibase-item"@,
        dt@ != "string"@,
        dt@ != "time"@,
    ensures
        claim_item_spec(Json::Obj(entries)) == Ok::<ClaimAddM, Seq<char>>(ClaimAddM::Skip),
{
}

/// Law: an entity-reference claim whose nested value lacks an `id` field
/// is a schema violation; the violation rejects the whole record, so the
/// enclosing property never reaches the relational mapping, not even
/// partially.
pub proof fn lemma_item_claim_missing_id(
    entries: Vec<(String, Json)>,
    ms: Vec<(String, Json)>,
    dv: Vec<(String, Json)>,
    dt: String,
    value: Vec<(String, Json)>,
)
    requires
        lookup(entries@, "mainsnak"@) == Some(Json::Obj(ms)),
        lookup(ms@, "datavalue"@) == Some(Json::Obj(dv)),
        lookup(ms@, "datatype"@) == Some(Json::Str(dt)),
        dt@ == "wikibase-item"@,
        lookup(dv@, "value"@) == Some(Json::Obj(value)),
        lookup(value@, "id"@) is None,
    ensures
        claim_item_spec(Json::Obj(entries)) == Err::<ClaimAddM, Seq<char>>(
            "No id field in value"@,
        ),
{
}

proof fn lemma_claims_fold_err(
    props: PropsM,
    dps: DataPropsM,
    entries: Seq<(String, Json)>,
    line_no: int,
    w: int,
)
    requires
        0 <= w < entries.len(),
        spec_process_claim(entries[w].1, line_no) is Err,
    ensures
        claims_fold(props, dps, entries, line_no) is Err,
    decreases entries.len(),
{
    match spec_process_claim(entries[0].1, line_no) {
        Err(_) => {},
        Ok((rel, lit)) => {
            assert(w != 0);
            let props2 = if rel.len() > 0 {
                set_entry(props, entries[0].0@, rel)
            } else {
                props
            };
            let dps2 = if lit.len() > 0 {
                set_entry(dps, entries[0].0@, lit)
            } else {
                dps
            };
            assert(entries.drop_first()[w - 1] == entries[w]);
            lemma_claims_fold_err(props2, dps2, entries.drop_first(), line_no, w - 1);
        },
    }
}

/// Law: a schema violation inside any property's claim array rejects the
/// whole record: extraction yields an error, no record exists, and the
/// enclosing property reaches neither mapping, not even partially.
pub proof fn lemma_claim_error_rejects_record(
    entries: Vec<(String, Json)>,
    co: Vec<(String, Json)>,
    langs: Seq<Seq<char>>,
    line_no: int,
    w: int,
)
    requires
        lookup(entries@, "claims"@) == Some(Json::Obj(co)),
        0 <= w < co@.len(),
        spec_process_claim(co@[w].1, line_no) is Err,
    ensures
        spec_extract(Json::Obj(entries), langs, line_no) is Err,
{
    lemma_claims_fold_err(Seq::empty(), Seq::empty(), co@, line_no, w);
    assert(spec_claims_field(entries@, line_no) is Err);
}

/// Every object-valued member of the mapping carries a string `value`:
/// the shape a label, alias-fallback or description entry must have
/// wherever the extractor reads one.
pub open spec fn wf_value_obj(m: Seq<(String, Json)>) -> bool {
    forall|x: Seq<char>|
        (#[trigger] lookup(m, x)) matches Some(Json::Obj(e)) ==> entry_value_spec(e@) is Ok
}

/// Every element of an alias array is an object with a string `value`.
pub open spec fn wf_alias_items(items: Seq<Json>) -> bool {
    forall|i: int|
        0 <= i < items.len() ==> ((#[trigger] items[i]) matches Json::Obj(e) && entry_value_spec(
            e@,
        ) is Ok)
}

/// Every array-valued member of the `aliases` object conforms.
pub open spec fn wf_alias_obj(m: Seq<(String, Json)>) -> bool {
    forall|x: Seq<char>|
        (#[trigger] lookup(m, x)) matches Some(Json::Arr(items)) ==> wf_alias_items(items@)
}

/// A property's value is an array whose every claim the claim rule
/// accepts.
pub open spec fn wf_claim_values(v: Json) -> bool {
    v matches Json::Arr(items) && (forall|i: int|
        0 <= i < items@.len() ==> (#[trigger] claim_item_spec(items@[i])) is Ok)
}

/// Every property of the `claims` object conforms.
pub open spec fn wf_claims_obj(m: Seq<(String, Json)>) -> bool {
    forall|i: int| 0 <= i < m.len() ==> wf_claim_values((#[trigger] m[i]).1)
}

/// Every object-valued member of the `sitelinks` object has a string
/// `title`.
pub open spec fn wf_site_obj(m: Seq<(String, Json)>) -> bool {
    forall|x: Seq<char>|
        (#[trigger] lookup(m, x)) matches Some(Json::Obj(e)) ==> (lookup(e@, "title"@) matches Some(
            Json::Str(_),
        ))
}

/// A record of the shape the extractor expects: a JSON object whose `id`
/// is a string, whose `labels`, `descriptions` and `claims` fields are
/// objects with conforming members, and whose optional `aliases` and
/// `sitelinks`, where they are objects, conform as well.
pub open spec fn wf_record(j: Json) -> bool {
    match j {
        Json::Obj(entries) => {
            let obj = entries@;
            &&& (lookup(obj, "id"@) matches Some(Json::Str(_)))
            &&& (lookup(obj, "labels"@) matches Some(Json::Obj(lo)) && wf_value_obj(lo@))
            &&& (match lookup(obj, "aliases"@) {
                Some(Json::Obj(ao)) => wf_alias_obj(ao@),
                _ => true,
            })
            &&& (lookup(obj, "descriptions"@) matches Some(Json::Obj(dobj)) && wf_value_obj(dobj@))
            &&& (lookup(obj, "claims"@) matches Some(Json::Obj(co)) && wf_claims_obj(co@))
            &&& (match lookup(obj, "sitelinks"@) {
                Some(Json::Obj(so)) => wf_site_obj(so@),
                _ => true,
            })
        },
        _ => false,
    }
}

proof fn lemma_labels_fold_ok(lo: Seq<(String, Json)>, m: LabelsM, langs: Seq<Seq<char>>)
    requires
        wf_value_obj(lo),
    ensures
        labels_fold(lo, m, langs) is Ok,
    decreases langs.len(),
{
    if langs.len() > 0 {
        assert(lookup(lo, langs[0]) == lookup(lo, langs[0]));
        assert(lookup(lo, "mul"@) == lookup(lo, "mul"@));
        match labels_step(lo, m, langs[0]) {
            Ok(m2) => lemma_labels_fold_ok(lo, m2, langs.drop_first()),
            Err(_) => {
                assert(false);
            },
        }
    }
}

proof fn lemma_alias_items_fold_ok(m: LabelsM, lang: Seq<char>, items: Seq<Json>)
    requires
        wf_alias_items(items),
    ensures
        alias_items_fold(m, lang, items) is Ok,
    decreases items.len(),
{
    if items.len() > 0 {
        assert(items[0] matches Json::Obj(e) && entry_value_spec(e@) is Ok);
        assert forall|i: int|
            0 <= i < items.drop_first().len() implies ((#[trigger] items.drop_first()[i]) matches Json::Obj(
            e,
        ) && entry_value_spec(e@) is Ok) by {
            assert(items.drop_first()[i] == items[i + 1]);
        }
        match items[0] {
            Json::Obj(entry) => match labels_entry_push(entry@, m, lang) {
                Ok(m2) => lemma_alias_items_fold_ok(m2, lang, items.drop_first()),
                Err(_) => {
                    assert(false);
                },
            },
            _ => {
                assert(false);
            },
        }
    }
}

proof fn lemma_aliases_fold_ok(ao: Seq<(String, Json)>, m: LabelsM, langs: Seq<Seq<char>>)
    requires
        wf_alias_obj(ao),
    ensures
        aliases_fold(ao, m, langs) is Ok,
    decreases langs.len(),
{
    if langs.len() > 0 {
        match lookup(ao, langs[0]) {
            Some(Json::Arr(items)) => lemma_alias_items_fold_ok(m, langs[0], items@),
            _ => match lookup(ao, "mul"@) {
                Some(Json::Arr(items)) => lemma_alias_items_fold_ok(m, langs[0], items@),
                _ => {},
            },
        }
        match aliases_step(ao, m, langs[0]) {
            Ok(m2) => lemma_aliases_fold_ok(ao, m2, langs.drop_first()),
            Err(_) => {
                assert(false);
            },
        }
    }
}

proof fn lemma_desc_fold_ok(dobj: Seq<(String, Json)>, m: StrMapM, langs: Seq<Seq<char>>)
    requires
        wf_value_obj(dobj),
    ensures
        desc_fold(dobj, m, langs) is Ok,
    decreases langs.len(),
{
    if langs.len() > 0 {
        assert(lookup(dobj, langs[0]) == lookup(dobj, langs[0]));
        assert(lookup(dobj, "mul"@) == lookup(dobj, "mul"@));
        match desc_step(dobj, m, langs[0]) {
            Ok(m2) => lemma_desc_fold_ok(dobj, m2, langs.drop_first()),
            Err(_) => {
                assert(false);
            },
        }
    }
}

proof fn lemma_claim_items_fold_ok(
    rel: Seq<Seq<char>>,
    lit: Seq<Seq<Seq<char>>>,
    items: Seq<Json>,
)
    requires
        forall|i: int| 0 <= i < items.len() ==> (#[trigger] claim_item_spec(items[i])) is Ok,
    ensures
        claim_items_fold(rel, lit, items) is Ok,
    decreases items.len(),
{
    if items.len() > 0 {
        assert(claim_item_spec(items[0]) is Ok);
        assert forall|i: int|
            0 <= i < items.drop_first().len() implies (#[trigger] claim_item_spec(
            items.drop_first()[i],
        )) is Ok by {
            assert(items.drop_first()[i] == items[i + 1]);
        }
        match claim_item_spec(items[0]) {
            Ok(ClaimAddM::Rel(id)) => lemma_claim_items_fold_ok(
                rel.push(id),
                lit,
                items.drop_first(),
            ),
            Ok(ClaimAddM::Lit(l)) => lemma_claim_items_fold_ok(rel, lit.push(l), items.drop_first()),
            Ok(ClaimAddM::Skip) => lemma_claim_items_fold_ok(rel, lit, items.drop_first()),
            Err(_) => {
                assert(false);
            },
        }
    }
}

proof fn lemma_claims_fold_ok(
    props: PropsM,
    dps: DataPropsM,
    entries: Seq<(String, Json)>,
    line_no: int,
)
    requires
        wf_claims_obj(entries),
    ensures
        claims_fold(props, dps, entries, line_no) is Ok,
    decreases entries.len(),
{
    if entries.len() > 0 {
        assert(wf_claim_values(entries[0].1));
        match entries[0].1 {
            Json::Arr(items) => lemma_claim_items_fold_ok(Seq::empty(), Seq::empty(), items@),
            _ => {
                assert(false);
            },
        }
        assert forall|i: int|
            0 <= i < entries.drop_first().len() implies wf_claim_values(
            (#[trigger] entries.drop_first()[i]).1,
        ) by {
            assert(entries.drop_first()[i] == entries[i + 1]);
        }
        match spec_process_claim(entries[0].1, line_no) {
            Ok((rel, lit)) => {
                let props2 = if rel.len() > 0 {
                    set_entry(props, entries[0].0@, rel)
                } else {
                    props
                };
                let dps2 = if lit.len() > 0 {
                    set_entry(dps, entries[0].0@, lit)
                } else {
                    dps
                };
                lemma_claims_fold_ok(props2, dps2, entries.drop_first(), line_no);
            },
            Err(_) => {
                assert(false);
            },
        }
    }
}

proof fn lemma_site_fold_ok(so: Seq<(String, Json)>, m: StrMapM, langs: Seq<Seq<char>>)
    requires
        wf_site_obj(so),
    ensures
        site_fold(so, m, langs) is Ok,
    decreases langs.len(),
{
    if langs.len() > 0 {
        assert(lookup(so, langs[0] + "wiki"@) == lookup(so, langs[0] + "wiki"@));
        match site_step(so, m, langs[0]) {
            Ok(m2) => lemma_site_fold_ok(so, m2, langs.drop_first()),
            Err(_) => {
                assert(false);
            },
        }
    }
}

/// Law: a well-formed record is always extracted: for every requested
/// language list and every line number the extractor returns a record,
/// never an error.
pub proof fn lemma_well_formed_extracts(j: Json, langs: Seq<Seq<char>>, line_no: int)
    requires
        wf_record(j),
    ensures
        spec_extract(j, langs, line_no) is Ok,
{
    match j {
        Json::Obj(entries) => {
            let obj = entries@;
            match lookup(obj, "labels"@) {
                Some(Json::Obj(lo)) => lemma_labels_fold_ok(lo@, Seq::empty(), langs),
                _ => {
                    assert(false);
                },
            }
            match spec_labels_field(obj, langs) {
                Ok(m1) => {
                    match lookup(obj, "aliases"@) {
                        Some(Json::Obj(ao)) => lemma_aliases_fold_ok(ao@, m1, langs),
                        _ => {},
                    }
                },
                Err(_) => {
                    assert(false);
                },
            }
            match lookup(obj, "descriptions"@) {
                Some(Json::Obj(dobj)) => lemma_desc_fold_ok(dobj@, Seq::empty(), langs),
                _ => {
                    assert(false);
                },
            }
            match lookup(obj, "claims"@) {
                Some(Json::Obj(co)) => lemma_claims_fold_ok(
                    Seq::empty(),
                    Seq::empty(),
                    co@,
                    line_no,
                ),
                _ => {
                    assert(false);
                },
            }
            match lookup(obj, "sitelinks"@) {
                Some(Json::Obj(so)) => lemma_site_fold_ok(so@, Seq::empty(), langs),
                _ => {},
            }
        },
        _ => {
            assert(false);
        },
    }
}

/// Law: every association list of a successfully extracted record keys
/// each language (or property identifier) at most once, so the sink
/// writer appends at most one row per stream for the record.
pub proof fn lemma_extract_distinct(j: Json, langs: Seq<Seq<char>>, line_no: int, d: DataModel)
    requires
        spec_extract(j, langs, line_no) == Ok::<DataModel, ErrModel>(d),
    ensures
        distinct_keys(d.labels),
        distinct_keys(d.description),
        distinct_keys(d.properties),
        distinct_keys(d.data_props),
        distinct_keys(d.wiki),
{
    match j {
        Json::Obj(entries) => {
            let obj = entries@;
            match spec_labels_field(obj, langs) {
                Err(_) => {
                    assert(false);
                },
                Ok(m1) => {
                    match lookup(obj, "labels"@) {
                        Some(Json::Obj(lo)) => {
                            assert(distinct_keys(Seq::<(Seq<char>, Seq<Seq<char>>)>::empty()));
                            lemma_labels_fold_distinct(lo@, Seq::empty(), langs);
                        },
                        _ => {
                            assert(false);
                        },
                    }
                    match spec_aliases_field(obj, langs, m1) {
                        Err(_) => {
                            assert(false);
                        },
                        Ok(lab) => {
                            match lookup(obj, "aliases"@) {
                                Some(Json::Obj(ao)) => {
                                    lemma_aliases_fold_distinct(ao@, m1, langs);
                                },
                                _ => {},
                            }
                            assert(distinct_keys(lab));
                        },
                    }
                },
            }
            match spec_desc_field(obj, langs) {
                Err(_) => {
                    assert(false);
                },
                Ok(de) => {
                    match lookup(obj, "descriptions"@) {
                        Some(Json::Obj(dobj)) => {
                            assert(distinct_keys(Seq::<(Seq<char>, Seq<char>)>::empty()));
                            lemma_desc_fold_distinct(dobj@, Seq::empty(), langs);
                        },
                        _ => {
                            assert(false);
                        },
                    }
                },
            }
            match spec_claims_field(obj, line_no) {
                Err(_) => {
                    assert(false);
                },
                Ok(pd) => {
                    match lookup(obj, "claims"@) {
                        Some(Json::Obj(co)) => {
                            assert(distinct_keys(Seq::<(Seq<char>, Seq<Seq<char>>)>::empty()));
                            assert(distinct_keys(Seq::<(Seq<char>, Seq<Seq<Seq<char>>>)>::empty()));
                            lemma_claims_fold_distinct(
                                Seq::empty(),
                                Seq::empty(),
                                co@,
                                line_no,
                            );
                        },
                        _ => {
                            assert(false);
                        },
                    }
                },
            }
            match spec_site_field(obj, langs) {
                Err(_) => {
                    assert(false);
                },
                Ok(wi) => {
                    match lookup(obj, "sitelinks"@) {
                        Some(Json::Obj(so)) => {
                            assert(distinct_keys(Seq::<(Seq<char>, Seq<char>)>::empty()));
                            lemma_site_fold_distinct(so@, Seq::empty(), langs);
                        },
                        _ => {
                            assert(distinct_keys(wi));
                        },
                    }
                },
            }
        },
        _ => {
            assert(false);
        },
    }
}

} // verus!
