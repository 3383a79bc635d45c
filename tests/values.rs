use std::io::Write;

use model_graph::cache::{capacity_from_setting, make_key, AppState, QuickCache};
use model_graph::cubs_model::Element;
use model_graph::decimal::decimal;
use model_graph::json::{truncate, truncate_value, Json};
use model_graph::cubs_model::ModelData;
use model_graph::model_dict::{generate_array_field_count, get_json_array_len, ModelDictionary};
use model_graph::model_error::ModelError;
use model_graph::parser::decompress_gzip_to_string;
use model_graph::pointer::pointer;
use model_graph::query::{model_stats, query_elements, query_model, read_model_data, FacetSpec, FacetType};
use serde_json::Value;

fn to_json(v: &Value) -> Json {
    match v {
        Value::Null => Json::Null,
        Value::Bool(b) => Json::Bool(*b),
        Value::Number(n) => Json::Number(n.to_string()),
        Value::String(s) => Json::Str(s.clone()),
        Value::Array(a) => Json::Array(a.iter().map(to_json).collect()),
        Value::Object(m) => Json::Object(m.iter().map(|(k, v)| (k.clone(), to_json(v))).collect()),
    }
}

fn from_json(j: &Json) -> Value {
    match j {
        Json::Null => Value::Null,
        Json::Bool(b) => Value::Bool(*b),
        Json::Number(n) => serde_json::from_str(n).unwrap(),
        Json::Str(s) => Value::String(s.clone()),
        Json::Array(a) => Value::Array(a.iter().map(from_json).collect()),
        Json::Object(m) => {
            let mut map = serde_json::Map::new();
            for (k, v) in m {
                map.insert(k.clone(), from_json(v));
            }
            Value::Object(map)
        }
    }
}

fn parse(text: &str) -> Json {
    let value: Value = serde_json::from_str(text).unwrap();
    to_json(&value)
}

fn element(id: &str, type_: &str, nature: &str) -> Element {
    let mut facets = Vec::new();
    facets.push(("height".to_string(), Json::Number("3".to_string())));
    Element {
        id: id.to_string(),
        type_: type_.to_string(),
        nature: nature.to_string(),
        name: format!("name of {}", id),
        version: 7,
        dynamic_facets: vec![("colour".to_string(), Json::Str("red".to_string()))],
        facets,
        core_facets: vec![("level".to_string(), parse(r#"{"floor": {"index": 2}}"#))],
    }
}

#[test]
fn test_truncate() {
    let json = r#"{"a": 1, "b": {"c": 2}}"#;
    let value = parse(json);
    let result = truncate(&value, 2, 0);
    let result_string = from_json(&result).to_string();
    assert_eq!(result_string, r#"{"a":1,"b":{"c":2}}"#);
}

#[test]
fn test_truncate2() {
    let json = r#"{"a": 1,"b": {"c": {"d": 2}}}"#;
    let value = parse(json);
    let result = truncate(&value, 2, 0);
    let result_string = from_json(&result).to_string();
    assert_eq!(result_string, r#"{"a":1,"b":{"c":null}}"#);
}

#[test]
fn truncation_keeps_scalars_and_cuts_containers() {
    let values = vec![parse(r#"[1, [2, [3]], "x"]"#), parse("true"), parse(r#"{"k": []}"#)];
    let result = truncate_value(&values, 1);
    let texts: Vec<String> = result.iter().map(|v| from_json(v).to_string()).collect();
    assert_eq!(texts, vec![r#"[1,null,"x"]"#, "true", r#"{"k":null}"#]);
    assert_eq!(from_json(&truncate(&parse("[1]"), 0, 0)).to_string(), "null");
}

#[test]
fn test_valid_array_with_types() {
    let json = parse(
        r#"[
            {"type": "cube", "id": 1},
            {"type": "sphere", "id": 2},
            {"type": "cube", "id": 3},
            {"type": "cube", "id": 4}
        ]"#,
    );
    let result = generate_array_field_count(&json, "type").unwrap();
    assert_eq!(result.value.len(), 2);
    assert_eq!(result.value[0].element, "cube");
    assert_eq!(result.value[0].count, 3);
    assert_eq!(result.value[1].element, "sphere");
    assert_eq!(result.value[1].count, 1);
}

#[test]
fn test_empty_array() {
    let json = parse("[]");
    let result = generate_array_field_count(&json, "type");
    assert!(result.is_none());
}

#[test]
fn test_non_array_input() {
    let json = parse(r#"{"not": "array"}"#);
    let result = generate_array_field_count(&json, "type");
    assert!(result.is_none());
}

#[test]
fn test_array_without_type_fields() {
    let json = parse(r#"[{"id": 1}, {"name": "test"}]"#);
    let result = generate_array_field_count(&json, "type");
    assert!(result.is_none());
}

#[test]
fn counts_ties_keep_first_seen_order() {
    let json = parse(r#"[{"type": "b"}, {"type": "a"}, {"type": 3}, {"type": "a"}, {"type": "b"}, {"type": "c"}]"#);
    let result = generate_array_field_count(&json, "type").unwrap();
    let got: Vec<(String, u32)> = result.value.iter().map(|c| (c.element.clone(), c.count)).collect();
    assert_eq!(got, vec![("b".to_string(), 2), ("a".to_string(), 2), ("c".to_string(), 1)]);
}

fn both() -> Vec<Element> {
    vec![element("e1", "Wall", "Physical"), element("e2", "Door", "Physical")]
}

#[test]
fn query_all_returns_every_element() {
    let result = query_elements(&both(), "", "All", "All", &None, 0, 10);
    assert_eq!(result.result_count, 2);
    assert_eq!(result.total_result_count, 2);
    let first = from_json(&result.data[0]);
    assert_eq!(first["id"], "e1");
    assert_eq!(first["type"], "Wall");
    assert_eq!(first["version"], 7);
    assert_eq!(first["facets"]["height"], 3);
    assert_eq!(first["dynamicFacets"]["colour"], "red");
    assert_eq!(first["level"]["floor"]["index"], 2);
}

#[test]
fn query_limit_zero_returns_nothing() {
    let result = query_elements(&both(), "", "All", "All", &None, 0, 0);
    assert_eq!(result.result_count, 0);
    assert_eq!(result.total_result_count, 2);
    assert!(result.data.is_empty());
    let one = query_elements(&both(), "", "All", "All", &None, 0, 1);
    assert_eq!(one.result_count, 1);
    assert_eq!(one.total_result_count, 2);
}

#[test]
fn query_filters_by_id_type_and_nature() {
    let by_type = query_elements(&both(), "", "Door", "All", &None, 0, 10);
    assert_eq!(by_type.total_result_count, 1);
    assert_eq!(from_json(&by_type.data[0])["id"], "e2");
    let by_nature = query_elements(&both(), "", "All", "Virtual", &None, 0, 10);
    assert_eq!(by_nature.total_result_count, 0);
    let by_id = query_elements(&both(), "e1", "All", "All", &None, 0, 10);
    assert_eq!(by_id.total_result_count, 1);
    let none = query_elements(&both(), "e9", "All", "All", &None, 0, 10);
    assert_eq!(none.result_count, 0);
}

#[test]
fn query_projects_facets() {
    let facets = Some(FacetSpec { facet_type: FacetType::Facets, path: String::new(), is_detail: false });
    let result = query_elements(&both(), "", "All", "All", &facets, 0, 10);
    assert_eq!(from_json(&result.data[0]).to_string(), r#"{"height":3}"#);
    let dynamic = Some(FacetSpec { facet_type: FacetType::DynamicFacets, path: String::new(), is_detail: true });
    let detail = query_elements(&both(), "", "Door", "All", &dynamic, 0, 10);
    assert_eq!(
        from_json(&detail.data[0]).to_string(),
        r#"{"dynamicFacets":{"colour":"red"},"id":"e2","name":"name of e2","nature":"Physical","type":"Door"}"#
    );
}

#[test]
fn query_truncates_to_depth() {
    let core = Some(FacetSpec { facet_type: FacetType::CoreFacets, path: String::new(), is_detail: false });
    let result = query_elements(&both(), "e1", "All", "All", &core, 2, 10);
    assert_eq!(from_json(&result.data[0]).to_string(), r#"{"level":{"floor":null}}"#);
}

#[test]
fn cache_round_trip_and_version_keys() {
    let cache: QuickCache<String> = QuickCache::new(4);
    cache.insert("model", 1, &"first".to_string());
    assert_eq!(cache.get("model", 1), Some("first".to_string()));
    assert_eq!(cache.get("model", 2), None);
    assert_eq!(cache.clone().get("model", 1), Some("first".to_string()));
    assert_eq!(make_key("abc", 42), "abc-42");
    assert_eq!(decimal(0), "0");
    assert_eq!(decimal(4294967295), "4294967295");
}

#[test]
fn payload_decompresses() {
    let mut encoder = flate2::write::GzEncoder::new(Vec::new(), flate2::Compression::default());
    encoder.write_all(br#"{"modelId":"m"}"#).unwrap();
    let bytes = encoder.finish().unwrap();
    assert_eq!(decompress_gzip_to_string(&bytes).unwrap(), r#"{"modelId":"m"}"#);
    assert!(matches!(decompress_gzip_to_string(b"not gzip"), Err(ModelError::DecodeError)));
}

#[test]
fn query_narrows_with_pointer() {
    let core = Some(FacetSpec { facet_type: FacetType::CoreFacets, path: "/level/floor/index".to_string(), is_detail: false });
    let result = query_elements(&both(), "", "All", "All", &core, 0, 10);
    assert_eq!(result.total_result_count, 2);
    assert_eq!(from_json(&result.data[0]).to_string(), "2");
    let missing = Some(FacetSpec { facet_type: FacetType::Facets, path: "/width".to_string(), is_detail: false });
    let nulls = query_elements(&both(), "", "All", "All", &missing, 0, 10);
    assert_eq!(nulls.total_result_count, 2);
    assert_eq!(nulls.result_count, 2);
    assert_eq!(from_json(&nulls.data[0]).to_string(), "null");
}

#[test]
fn pointer_follows_members_and_indices() {
    let v = parse(r#"{"a": [10, 20], "b/c": 1, "d~e": 2, "": 3}"#);
    let at = |p: &str| pointer(&v, p).map(|j| from_json(j).to_string());
    assert_eq!(at("/a/1"), Some("20".to_string()));
    assert_eq!(at("/a/01"), None);
    assert_eq!(at("/a/2"), None);
    assert_eq!(at("/a/+1"), None);
    assert_eq!(at("/b~1c"), Some("1".to_string()));
    assert_eq!(at("/d~0e"), Some("2".to_string()));
    assert_eq!(at("/"), Some("3".to_string()));
    assert_eq!(at("a"), None);
    assert_eq!(at(""), Some(from_json(&v).to_string()));
}

#[test]
fn facet_spec_from_request_words() {
    let f = FacetSpec::parse("facets", "/x", Some("is_detail")).unwrap();
    assert_eq!(f.facet_type, FacetType::Facets);
    assert_eq!(f.path, "/x");
    assert!(f.is_detail);
    assert!(FacetSpec::parse("dynamicFacets", "", None).map(|f| !f.is_detail).unwrap());
    assert!(FacetSpec::parse("other", "", None).is_none());
}

#[test]
fn array_length_and_model_stats() {
    assert_eq!(get_json_array_len(&parse("[1, 2, 3]")), 3);
    assert_eq!(get_json_array_len(&parse(r#"{"a": 1}"#)), 0);
    let mut elements = both();
    elements.push(element("e3", "Wall", "Virtual"));
    let model = ModelData {
        schema_version: "1".to_string(),
        model_id: "m".to_string(),
        site_model_id: "s".to_string(),
        version: 4,
        elements,
        relationships: Vec::new(),
    };
    let dict = ModelDictionary::from(&model);
    assert_eq!(dict.model_id, "m");
    assert_eq!(dict.version, 4);
    let e = dict.model_stats.elements_stats.unwrap();
    assert_eq!(e.all_count, 3);
    let by_type: Vec<(String, u32)> = e.by_type.value.iter().map(|c| (c.element.clone(), c.count)).collect();
    assert_eq!(by_type, vec![("Wall".to_string(), 2), ("Door".to_string(), 1)]);
    let by_nature: Vec<(String, u32)> = e.by_nature.value.iter().map(|c| (c.element.clone(), c.count)).collect();
    assert_eq!(by_nature, vec![("Physical".to_string(), 2), ("Virtual".to_string(), 1)]);
    let r = dict.model_stats.relationships_stats.unwrap();
    assert_eq!(r.all_count, 0);
    assert!(r.by_type.value.is_empty());
}

#[test]
fn capacity_setting_and_state() {
    assert_eq!(capacity_from_setting(None), 2);
    assert_eq!(capacity_from_setting(Some("7")), 7);
    assert_eq!(capacity_from_setting(Some("+12")), 12);
    assert_eq!(capacity_from_setting(Some("x1")), 2);
    assert_eq!(capacity_from_setting(Some("")), 2);
    assert_eq!(capacity_from_setting(Some("99999999999999999999999")), 2);
    let state = AppState::new(5);
    assert_eq!(state.model_cache.capacity, 5);
    assert_eq!(state.get_graph_cache().capacity, 5);
}

#[test]
fn model_ids_must_be_uuids() {
    let state = AppState::new(2);
    let id = "550e8400-e29b-41d4-a716-446655440000";
    assert!(matches!(read_model_data(&state, "not-a-uuid", 1), Err(ModelError::InvalidInput)));
    assert!(matches!(read_model_data(&state, id, 1), Ok(None)));
    let model = ModelData {
        schema_version: "1".to_string(),
        model_id: id.to_string(),
        site_model_id: "s".to_string(),
        version: 1,
        elements: both(),
        relationships: Vec::new(),
    };
    state.get_model_cache().insert(id, 1, &model);
    assert!(matches!(read_model_data(&state, id, 1), Ok(Some(m)) if m.elements.len() == 2));
    assert!(matches!(read_model_data(&state, id, 2), Ok(None)));
}

#[test]
fn cached_queries_and_stats() {
    let state = AppState::new(2);
    let empty = query_model(&state, "", 1, "", "All", "All", &None, 0, 10).unwrap();
    assert_eq!(empty.total_result_count, 0);
    assert!(matches!(query_model(&state, "m", 1, "", "All", "All", &None, 0, 10), Err(ModelError::ModelNotFound(m)) if m == "m"));
    assert!(matches!(model_stats(&state, "m", 1), Err(ModelError::ModelNotFound(_))));
    let model = ModelData {
        schema_version: "1".to_string(),
        model_id: "m".to_string(),
        site_model_id: "s".to_string(),
        version: 1,
        elements: both(),
        relationships: Vec::new(),
    };
    state.get_model_cache().insert("m", 1, &model);
    let q = query_model(&state, "m", 1, "", "All", "All", &None, 0, 10).unwrap();
    assert_eq!((q.result_count, q.total_result_count), (2, 2));
    assert_eq!(model_stats(&state, "m", 1).unwrap().model_stats.elements_stats.unwrap().all_count, 2);
}
