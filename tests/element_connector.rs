use model_graph::cache::AppState;
use model_graph::cubs_model::{Element, ModelData, Relationship};
use model_graph::element_connector::ElementConnectorGraph;
use model_graph::model_error::ModelError;
use model_graph::relationship_viewer::{
    get_relationship_detail, graph_from, graph_of, relationship_detail, walk, OutputLine, OutputToken,
    RelationshipDirection,
};

fn element(id: &str, type_: &str, nature: &str) -> Element {
    Element {
        id: id.to_string(),
        type_: type_.to_string(),
        nature: nature.to_string(),
        name: String::new(),
        version: 1,
        dynamic_facets: Vec::new(),
        facets: Vec::new(),
        core_facets: Vec::new(),
    }
}

fn relationship(id: &str, source: &str, target: &str) -> Relationship {
    Relationship {
        id: id.to_string(),
        source_id: source.to_string(),
        target_id: target.to_string(),
        type_: "Contains".to_string(),
        nature: String::new(),
        name: String::new(),
        version: 1,
        dynamic_facets: Vec::new(),
        facets: Vec::new(),
        core_facets: Vec::new(),
    }
}

fn pairs(c: &model_graph::element_connector::ElementConnector, outgoing: bool) -> Vec<(String, String)> {
    let edges = if outgoing { &c.out_path } else { &c.in_path };
    edges.iter().map(|e| (e.relationship_id.clone(), e.endpoint_id.clone())).collect()
}

fn p(a: &str, b: &str) -> (String, String) {
    (a.to_string(), b.to_string())
}

fn tokens(line: &OutputLine) -> Vec<String> {
    line.line
        .iter()
        .map(|t| match t {
            OutputToken::Value(v) => v.clone(),
            OutputToken::InArrow => "<-".to_string(),
            OutputToken::OutArrow => "->".to_string(),
        })
        .collect()
}

#[test]
fn test_new() {
    let mut graph = ElementConnectorGraph::new();
    graph.add_connector("c1");
    graph.add_connector("c2");
    graph.add_connector("c3");
    graph.add_connector("c4");
    graph.add_connector("c5");
    graph.connect("r1", "c1", "c3");
    graph.connect("r2", "c2", "c3");
    graph.connect("r3", "c3", "c4");
    graph.connect("r4", "c3", "c5");

    let c1 = graph.get_connection("c1");
    let c2 = graph.get_connection("c2");
    let c3 = graph.get_connection("c3");
    let c4 = graph.get_connection("c4");
    let c5 = graph.get_connection("c5");

    if let Some(c) = c1 {
        println!("--- Print C1 ----");
        println!("{}", c.to_text());
    }
    println!();
    if let Some(c) = c2 {
        println!("--- Print C2 ----");
        println!("{}", c.to_text());
    }
    println!();
    if let Some(c) = c3 {
        println!("--- Print C3 ----");
        println!("{}", c.to_text());
    }
    println!();
    if let Some(c) = c4 {
        println!("--- Print C4 ----");
        println!("{}", c.to_text());
    }
    println!();
    if let Some(c) = c5 {
        println!("--- Print C5 ----");
        println!("{}", c.to_text());
    }

    assert!(true);
    let c3 = graph.get_connection("c3").unwrap();
    assert_eq!(pairs(c3, false), vec![p("r1", "c1"), p("r2", "c2")]);
    assert_eq!(pairs(c3, true), vec![p("r3", "c4"), p("r4", "c5")]);
    assert_eq!(graph.get_connection_count(), 5);
    assert_eq!(graph.get_connected_relationship_count(), 4);
}

#[test]
fn registering_twice_keeps_one_connector() {
    let mut graph = ElementConnectorGraph::new();
    graph.add_connector("a");
    graph.add_connector("a");
    assert_eq!(graph.get_connection_count(), 1);
    assert!(graph.get_connection("b").is_none());
}

#[test]
fn resolved_relationship_links_both_ends() {
    let elements = vec![element("e1", "Wall", "Physical"), element("e2", "Door", "Physical")];
    let rels = vec![relationship("r1", "e1", "e2")];
    let graph = ElementConnectorGraph::build(&elements, &rels);
    let e1 = graph.get_connection("e1").unwrap();
    let e2 = graph.get_connection("e2").unwrap();
    assert_eq!(pairs(e1, true), vec![p("r1", "e2")]);
    assert!(pairs(e1, false).is_empty());
    assert_eq!(pairs(e2, false), vec![p("r1", "e1")]);
    assert!(pairs(e2, true).is_empty());
    assert_eq!(graph.get_connected_relationship_count(), 1);
}

#[test]
fn dangling_target_gives_only_an_outgoing_edge() {
    let elements = vec![element("a", "T", "N"), element("b", "T", "N")];
    let rels = vec![relationship("r1", "a", "missing"), relationship("r2", "gone", "b"), relationship("r3", "x", "y")];
    let graph = ElementConnectorGraph::build(&elements, &rels);
    let a = graph.get_connection("a").unwrap();
    let b = graph.get_connection("b").unwrap();
    assert_eq!(pairs(a, true), vec![p("r1", "missing")]);
    assert!(pairs(a, false).is_empty());
    assert_eq!(pairs(b, false), vec![p("r2", "gone")]);
    assert!(pairs(b, true).is_empty());
    assert_eq!(graph.get_connection_count(), 2);
    assert_eq!(graph.get_connected_relationship_count(), 0);
}

#[test]
fn edges_keep_relationship_order() {
    let elements = vec![element("a", "T", "N"), element("b", "T", "N"), element("c", "T", "N")];
    let rels = vec![
        relationship("r3", "a", "c"),
        relationship("r1", "a", "b"),
        relationship("r2", "c", "a"),
        relationship("r0", "b", "a"),
    ];
    let graph = ElementConnectorGraph::build(&elements, &rels);
    let a = graph.get_connection("a").unwrap();
    assert_eq!(pairs(a, true), vec![p("r3", "c"), p("r1", "b")]);
    assert_eq!(pairs(a, false), vec![p("r2", "c"), p("r0", "b")]);
}

#[test]
fn two_cycle_walk_ends_without_repeats() {
    let elements = vec![element("A", "T", "N"), element("B", "T", "N")];
    let rels = vec![relationship("ab", "A", "B"), relationship("ba", "B", "A")];
    let graph = ElementConnectorGraph::build(&elements, &rels);
    let model = ModelData {
        schema_version: "1".to_string(),
        model_id: "m".to_string(),
        site_model_id: "s".to_string(),
        version: 1,
        elements,
        relationships: rels,
    };
    let out = get_relationship_detail(&model, &graph, "A", 10, 10).unwrap();
    assert_eq!(out.parent_lines.len(), 1);
    assert_eq!(out.child_lines.len(), 1);
    assert_eq!(tokens(&out.parent_lines[0]), vec!["A", "<-", "ba", "<-", "B"]);
    assert_eq!(tokens(&out.child_lines[0]), vec!["A", "->", "ab", "->", "B"]);
    let children = walk(&graph, "B", 10, RelationshipDirection::Child);
    assert_eq!(children.len(), 1);
}

#[test]
fn walk_is_breadth_first_and_bounded() {
    let elements = vec![element("a", "T", "N"), element("b", "T", "N"), element("c", "T", "N"), element("d", "T", "N")];
    let rels = vec![relationship("r1", "a", "b"), relationship("r2", "b", "c"), relationship("r3", "c", "d"), relationship("r4", "a", "c")];
    let graph = ElementConnectorGraph::build(&elements, &rels);
    let two = walk(&graph, "a", 2, RelationshipDirection::Child);
    let ends: Vec<String> = two.iter().map(|p| p.last().unwrap().endpoint_id.clone()).collect();
    assert_eq!(ends, vec!["b", "c", "d"]);
    assert_eq!(two[2].len(), 2);
    assert!(walk(&graph, "a", 0, RelationshipDirection::Child).is_empty());
}

#[test]
fn end_to_end_relationship_detail() {
    let elements = vec![element("e1", "Wall", "Physical"), element("e2", "Door", "Physical")];
    let rels = vec![relationship("r1", "e1", "e2")];
    let model = ModelData {
        schema_version: "1".to_string(),
        model_id: "m1".to_string(),
        site_model_id: "s1".to_string(),
        version: 3,
        elements,
        relationships: rels,
    };
    let state = AppState::new(2);
    state.get_model_cache().insert("m1", 3, &model);
    let out = relationship_detail(&state, "m1", 3, "e2", 1, 1).unwrap();
    assert_eq!(out.parent_lines.len(), 1);
    assert_eq!(tokens(&out.parent_lines[0]), vec!["e2", "<-", "r1", "<-", "e1"]);
    assert!(out.child_lines.is_empty());
    let keys: Vec<String> = out.elements_data.iter().map(|(k, _)| k.clone()).collect();
    assert_eq!(keys, vec!["e2", "r1", "e1"]);
}

#[test]
fn relationship_detail_errors() {
    let state = AppState::new(2);
    assert!(matches!(relationship_detail(&state, "", 1, "e", 1, 1), Err(ModelError::InvalidInput)));
    assert!(matches!(relationship_detail(&state, "m", 1, "", 1, 1), Err(ModelError::InvalidInput)));
    assert!(matches!(relationship_detail(&state, "m", 1, "e", 1, 1), Err(ModelError::ModelNotFound(_))));
    let model = ModelData {
        schema_version: "1".to_string(),
        model_id: "m".to_string(),
        site_model_id: "s".to_string(),
        version: 1,
        elements: vec![element("e", "T", "N")],
        relationships: Vec::new(),
    };
    state.get_model_cache().insert("m", 1, &model);
    match relationship_detail(&state, "m", 1, "zz", 1, 1) {
        Err(ModelError::ModelNotFound(id)) => assert_eq!(id, "zz"),
        other => panic!("unexpected {:?}", other.is_ok()),
    }
}

#[test]
fn connector_text_lists_edges_around_element() {
    let mut graph = ElementConnectorGraph::new();
    graph.add_connector("c1");
    graph.add_connector("c3");
    graph.add_connector("c4");
    graph.connect("r1", "c1", "c3");
    graph.connect("r3", "c3", "c4");
    let text = graph.get_connection("c3").unwrap().to_text();
    assert_eq!(
        text,
        "<c1> -- (r1) --> \n              [c3] \n                 -- (r3) --> <c4>\n"
    );
}

#[test]
fn error_messages() {
    assert_eq!(ModelError::ModelNotFound("m1".to_string()).to_message(), "Model m1 not found");
    assert_eq!(
        ModelError::ModelGraphBuildingError("bad".to_string()).to_message(),
        "Error building model graph: bad"
    );
    assert_eq!(ModelError::InvalidInput.to_message(), "");
    assert_eq!(ModelError::DecodeError.to_message(), "Unable to decompress saved model");
    assert_eq!(ModelError::ParseError.to_message(), "Unable to read saved model");
}

#[test]
fn graph_cache_builds_once() {
    let elements = vec![element("a", "T", "N"), element("b", "T", "N")];
    let rels = vec![relationship("r", "a", "b")];
    let model = ModelData {
        schema_version: "1".to_string(),
        model_id: "m".to_string(),
        site_model_id: "s".to_string(),
        version: 1,
        elements,
        relationships: rels,
    };
    let (fresh, built) = graph_from(None, &model);
    assert!(built);
    assert_eq!(fresh.get_connection_count(), 2);
    let state = AppState::new(2);
    let (first, first_built) = graph_of(&state, "m", 1, &model);
    let (second, second_built) = graph_of(&state, "m", 1, &model);
    assert!(first_built);
    assert!(!second_built);
    assert_eq!(first.get_connected_relationship_count(), second.get_connected_relationship_count());
}

#[test]
fn walk_lines_have_distinct_elements() {
    let elements = vec![element("a", "T", "N"), element("b", "T", "N"), element("c", "T", "N")];
    let rels = vec![relationship("r1", "a", "b"), relationship("r2", "b", "c"), relationship("r3", "c", "a")];
    let graph = ElementConnectorGraph::build(&elements, &rels);
    let paths = walk(&graph, "a", 10, RelationshipDirection::Child);
    assert_eq!(paths.len(), 2);
    for p in &paths {
        let mut seen = vec!["a".to_string()];
        for e in p {
            assert!(!seen.contains(&e.endpoint_id));
            seen.push(e.endpoint_id.clone());
        }
    }
}
