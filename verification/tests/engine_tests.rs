//! Tests of the traversal engine: record assembly, repeating groups,
//! filters, namespace qualification and the flush condition.

use unstruct::config::parse;
use unstruct::engine::traverse;
use unstruct::output::format_line;
use unstruct::state::ParsedTracker;
use unstruct::state::ResultRow;
use unstruct::tables::Mapping;
use unstruct::tables::NamespaceMap;
use unstruct::xml::Attribute;
use unstruct::xml::Element;

fn leaf(name: &str, text: &str) -> Element {
    Element {
        name: name.to_string(),
        namespace: None,
        attributes: Vec::new(),
        text: text.to_string(),
        children: Vec::new(),
    }
}

fn node(name: &str, children: Vec<Element>) -> Element {
    Element {
        name: name.to_string(),
        namespace: None,
        attributes: Vec::new(),
        text: String::new(),
        children,
    }
}

fn node_with_attrs(name: &str, attrs: Vec<(&str, &str)>, children: Vec<Element>) -> Element {
    Element {
        name: name.to_string(),
        namespace: None,
        attributes: attrs
            .into_iter()
            .map(|(n, v)| Attribute { name: n.to_string(), value: v.to_string() })
            .collect(),
        text: String::new(),
        children,
    }
}

fn ns_leaf(name: &str, uri: &str, text: &str) -> Element {
    Element {
        name: name.to_string(),
        namespace: Some(uri.to_string()),
        attributes: Vec::new(),
        text: text.to_string(),
        children: Vec::new(),
    }
}

fn run(cfg: &Mapping, namespaces: &NamespaceMap, roots: Vec<Element>) -> Vec<Vec<String>> {
    let mut parsed = ParsedTracker::new();
    let mut result = ResultRow::new();
    let mut rows: Vec<Vec<String>> = Vec::new();
    traverse(
        vec![roots],
        cfg,
        namespaces,
        &mut parsed,
        &mut result,
        &mut rows,
        None,
        false,
        1,
    );
    rows
}

fn row(fields: Vec<&str>) -> Vec<String> {
    fields.into_iter().map(|f| f.to_string()).collect()
}

#[test]
fn three_records_emit_three_rows() {
    let cfg = parse("\"Record\" { id = \"ID\" name = \"Name\" }").unwrap();
    let records = vec![
        node("Record", vec![leaf("ID", "1"), leaf("Name", "alpha")]),
        node("Record", vec![leaf("ID", "2"), leaf("Name", "beta")]),
        node("Record", vec![leaf("ID", "3"), leaf("Name", "gamma")]),
    ];
    let rows = run(&cfg, &NamespaceMap::new(), records);
    assert_eq!(
        rows,
        vec![row(vec!["1", "alpha"]), row(vec!["2", "beta"]), row(vec!["3", "gamma"])]
    );
    assert_eq!(format_line(&rows[0]), "1\talpha\n");
    assert_eq!(format_line(&cfg.header), "id\tname\n");
}

#[test]
fn single_occurrence_fills_the_row_in_header_order() {
    let cfg = parse("\"R\" { first = \"A\" second = \"B\" }").unwrap();
    let doc = vec![node("R", vec![leaf("B", "two"), leaf("A", "one")])];
    let rows = run(&cfg, &NamespaceMap::new(), doc);
    assert_eq!(rows, vec![row(vec!["one", "two"])]);
}

#[test]
fn unmapped_columns_stay_empty() {
    let cfg = parse("\"R\" { a = \"A\" b = \"B\" }").unwrap();
    let doc = vec![node("R", vec![leaf("A", "x")])];
    let rows = run(&cfg, &NamespaceMap::new(), doc);
    assert_eq!(rows, vec![row(vec!["x", ""])]);
}

#[test]
fn filtered_occurrence_yields_no_row_and_leaks_nothing() {
    let cfg = parse(
        "\"Data\" { marker = \"Marker\" Rec/@keep == \"yes\" \"Rec\" { id = \"ID\" } }",
    )
    .unwrap();
    let doc = vec![node(
        "Data",
        vec![
            leaf("Marker", "m"),
            node_with_attrs("Rec", vec![("keep", "yes")], vec![leaf("ID", "1")]),
            node_with_attrs("Rec", vec![("keep", "no")], vec![leaf("ID", "2")]),
            node_with_attrs("Rec", vec![("keep", "yes")], vec![leaf("ID", "3")]),
        ],
    )];
    let rows = run(&cfg, &NamespaceMap::new(), doc);
    assert_eq!(rows, vec![row(vec!["m", "1"]), row(vec!["m", "3"])]);
    for r in &rows {
        for field in r {
            assert_ne!(field, "2");
        }
    }
}

#[test]
fn a_filter_on_the_group_element_gates_whole_occurrences() {
    let mut cfg = parse("\"Rec\" { id = \"ID\" }").unwrap();
    cfg.filters.insert("Rec/@keep".to_string(), 1, "yes".to_string());
    let recs = vec![
        node_with_attrs("Rec", vec![("keep", "yes")], vec![leaf("ID", "1")]),
        node_with_attrs("Rec", vec![("keep", "no")], vec![leaf("ID", "2")]),
        node_with_attrs("Rec", vec![("keep", "yes")], vec![leaf("ID", "3")]),
    ];
    let rows = run(&cfg, &NamespaceMap::new(), recs);
    assert_eq!(rows, vec![row(vec!["1"]), row(vec!["3"])]);
}

#[test]
fn text_filter_excludes_a_leaf_without_aborting_the_record() {
    let cfg = parse("\"R\" { a = \"A\" b = \"B\" B == \"keep\" }").unwrap();
    let doc = vec![node("R", vec![leaf("A", "x"), leaf("B", "drop")])];
    let rows = run(&cfg, &NamespaceMap::new(), doc);
    assert_eq!(rows, vec![row(vec!["x", ""])]);
}

#[test]
fn same_tag_at_two_depths_fills_two_columns() {
    let cfg = parse("\"Out\" { top = \"N\" \"Mid\" { inner = \"N\" } }").unwrap();
    let doc = vec![node("Out", vec![leaf("N", "a"), node("Mid", vec![leaf("N", "b")])])];
    let rows = run(&cfg, &NamespaceMap::new(), doc);
    assert_eq!(rows, vec![row(vec!["a", "b"])]);
}

#[test]
fn namespaced_element_matches_the_qualified_path() {
    let cfg = parse("\"Root\" { qual = \"x:Item\" }").unwrap();
    let mut namespaces = NamespaceMap::new();
    namespaces.insert("urn:example".to_string(), "x".to_string());
    let doc = vec![node("Root", vec![ns_leaf("Item", "urn:example", "v")])];
    let rows = run(&cfg, &namespaces, doc);
    assert_eq!(rows, vec![row(vec!["v"])]);
}

#[test]
fn namespaced_element_does_not_match_the_bare_path() {
    let cfg = parse("\"Root\" { bare = \"Item\" }").unwrap();
    let mut namespaces = NamespaceMap::new();
    namespaces.insert("urn:example".to_string(), "x".to_string());
    let doc = vec![node("Root", vec![ns_leaf("Item", "urn:example", "v")])];
    let rows = run(&cfg, &namespaces, doc);
    assert_eq!(rows, Vec::<Vec<String>>::new());
}

#[test]
fn unbound_namespace_falls_back_to_the_local_name() {
    let cfg = parse("\"Root\" { bare = \"Item\" }").unwrap();
    let doc = vec![node("Root", vec![ns_leaf("Item", "urn:unbound", "v")])];
    let rows = run(&cfg, &NamespaceMap::new(), doc);
    assert_eq!(rows, vec![row(vec!["v"])]);
}

#[test]
fn document_matching_nothing_emits_no_rows() {
    let cfg = parse("\"Root\" { a = \"A\" }").unwrap();
    let doc = vec![node("Root", vec![leaf("B", "x"), node("C", vec![leaf("D", "y")])])];
    let rows = run(&cfg, &NamespaceMap::new(), doc);
    assert_eq!(rows, Vec::<Vec<String>>::new());
}

#[test]
fn ancestor_fields_carry_forward_into_each_sibling_row() {
    let cfg = parse(
        "\"Data\" { marker = \"Marker\" \"Rec\" { id = \"ID\" } }",
    )
    .unwrap();
    let doc = vec![node(
        "Data",
        vec![
            leaf("Marker", "shared"),
            node("Rec", vec![leaf("ID", "1")]),
            node("Rec", vec![leaf("ID", "2")]),
        ],
    )];
    let rows = run(&cfg, &NamespaceMap::new(), doc);
    assert_eq!(rows, vec![row(vec!["shared", "1"]), row(vec!["shared", "2"])]);
}

#[test]
fn attribute_directive_captures_the_attribute() {
    let cfg = parse("\"R\" { t = \"Item/@type\" v = \"Item\" }").unwrap();
    let doc = vec![node(
        "R",
        vec![Element {
            name: "Item".to_string(),
            namespace: None,
            attributes: vec![Attribute { name: "type".to_string(), value: "big".to_string() }],
            text: "body".to_string(),
            children: Vec::new(),
        }],
    )];
    let rows = run(&cfg, &NamespaceMap::new(), doc);
    assert_eq!(rows, vec![row(vec!["big", "body"])]);
}

#[test]
fn nodes_below_the_declared_depths_are_not_visited() {
    let cfg = parse("\"R\" { a = \"A\" }").unwrap();
    let doc = vec![node("R", vec![node("Wrap", vec![leaf("A", "deep")])])];
    let rows = run(&cfg, &NamespaceMap::new(), doc);
    assert_eq!(rows, Vec::<Vec<String>>::new());
}

#[test]
fn the_expected_field_count_bounds_one_instance() {
    let cfg = parse("\"R\" { a = \"A\" }").unwrap();
    let doc = vec![node("R", vec![leaf("A", "first"), leaf("A", "second")])];
    let rows = run(&cfg, &NamespaceMap::new(), doc);
    assert_eq!(rows, vec![row(vec!["first"])]);
}

#[test]
fn three_nested_groups_assemble_one_row_per_deepest_instance() {
    let cfg = parse(
        "\"Data\" { d = \"Meta\" \"Mid\" { m = \"Tag\" \"Leaf\" { l = \"V\" } } }",
    )
    .unwrap();
    assert_eq!(cfg.levels, vec![0usize, 1usize, 1usize, 1usize]);
    let doc = vec![node(
        "Data",
        vec![
            leaf("Meta", "x"),
            node(
                "Mid",
                vec![
                    leaf("Tag", "y"),
                    node("Leaf", vec![leaf("V", "z1")]),
                    node("Leaf", vec![leaf("V", "z2")]),
                ],
            ),
        ],
    )];
    let rows = run(&cfg, &NamespaceMap::new(), doc);
    assert_eq!(rows, vec![row(vec!["x", "y", "z1"]), row(vec!["x", "y", "z2"])]);
}

#[test]
fn a_group_activation_intercepts_the_queued_children() {
    let cfg = parse("\"Data\" { marker = \"Marker\" \"Rec\" { id = \"ID\" } }").unwrap();
    let doc = vec![node(
        "Data",
        vec![
            leaf("Marker", "m"),
            node("Aux", vec![leaf("ID", "zz")]),
            node("Rec", vec![leaf("ID", "1")]),
        ],
    )];
    let rows = run(&cfg, &NamespaceMap::new(), doc);
    assert_eq!(rows, vec![row(vec!["m", "1"])]);
}

#[test]
fn a_group_without_directives_emits_nothing() {
    let cfg = parse("\"R\" { }").unwrap();
    assert_eq!(cfg.header, Vec::<String>::new());
    let doc = vec![node("R", vec![leaf("A", "x")])];
    let rows = run(&cfg, &NamespaceMap::new(), doc);
    assert_eq!(rows, Vec::<Vec<String>>::new());
}

#[test]
fn empty_node_set_emits_nothing() {
    let cfg = parse("\"R\" { a = \"A\" }").unwrap();
    let rows = run(&cfg, &NamespaceMap::new(), Vec::new());
    assert_eq!(rows, Vec::<Vec<String>>::new());
}
