use mdmodels::attribute::Attribute;
use mdmodels::datamodel::DataModel;
use mdmodels::exporters::{prepare_for_template, Templates};
use mdmodels::linkml::schema::LinkML;
use mdmodels::object::Object;
use mdmodels::tree::{dependency_graph, get_topological_order, object_graph};

fn attribute(name: &str, dtypes: &[&str]) -> Attribute {
    let mut attr = Attribute::new(name.to_string(), false);
    attr.dtypes = dtypes.iter().map(|d| d.to_string()).collect();
    attr
}

fn object(name: &str, attributes: Vec<Attribute>) -> Object {
    let mut obj = Object::new(name.to_string(), None);
    obj.attributes = attributes;
    obj
}

/// A uses B, B uses C and a string; D stands alone.
fn chain_model() -> DataModel {
    let mut model = DataModel::new(None, None);
    model.objects.push(object("A", vec![attribute("b", &["B"])]));
    model.objects.push(object("B", vec![attribute("c", &["C", "string"])]));
    model.objects.push(object("C", vec![attribute("x", &["integer"])]));
    model.objects.push(object("D", vec![attribute("y", &["string"])]));
    model
}

fn edge_names(graph: &petgraph::graph::DiGraph<Object, ()>) -> Vec<(String, String)> {
    let mut edges: Vec<(String, String)> = graph
        .edge_indices()
        .map(|e| {
            let (a, b) = graph.edge_endpoints(e).unwrap();
            (graph[a].name.clone(), graph[b].name.clone())
        })
        .collect();
    edges.sort();
    edges
}

#[test]
fn test_dependency_graph_edges_point_to_users() {
    let model = chain_model();
    let graph = dependency_graph(&model);
    assert_eq!(graph.node_count(), 4);
    assert_eq!(
        edge_names(&graph),
        vec![("B".to_string(), "A".to_string()), ("C".to_string(), "B".to_string())]
    );
}

#[test]
fn test_topological_order_has_every_name_once() {
    let model = chain_model();
    let graph = dependency_graph(&model);
    let mut order = get_topological_order(&graph);
    assert_eq!(order.len(), 4);
    order.sort();
    assert_eq!(order, vec!["A", "B", "C", "D"]);
}

#[test]
fn test_object_graph_reaches_dependencies() {
    let model = chain_model();
    let graph = object_graph(&model, "A").expect("root exists");
    assert_eq!(graph.node_count(), 4);
    assert_eq!(
        edge_names(&graph),
        vec![("A".to_string(), "B".to_string()), ("B".to_string(), "C".to_string())]
    );

    let from_b = object_graph(&model, "B").expect("root exists");
    assert_eq!(edge_names(&from_b), vec![("B".to_string(), "C".to_string())]);

    let alone = object_graph(&model, "D").expect("root exists");
    assert_eq!(alone.edge_count(), 0);
}

#[test]
fn test_object_graph_unknown_root() {
    let model = chain_model();
    let err = object_graph(&model, "Missing").unwrap_err();
    assert_eq!(err, "Object 'Missing' not found in model");
}

#[test]
fn test_object_graph_cycle_visits_once() {
    let mut model = DataModel::new(None, None);
    model.objects.push(object("A", vec![attribute("b", &["B"]), attribute("b2", &["B"])]));
    model.objects.push(object("B", vec![attribute("a", &["A"])]));
    let graph = object_graph(&model, "A").expect("root exists");
    assert_eq!(
        edge_names(&graph),
        vec![
            ("A".to_string(), "B".to_string()),
            ("A".to_string(), "B".to_string()),
            ("B".to_string(), "A".to_string())
        ]
    );
}

#[test]
fn test_julia_template_orders_objects_by_dependency() {
    let mut model = chain_model();
    let (added, warning) = prepare_for_template(Templates::Julia, &mut model, &None);
    assert!(added.is_empty());
    assert!(warning.is_none());
    let names: Vec<&str> = model.objects.iter().map(|o| o.name.as_str()).collect();
    assert_eq!(names.len(), 4);
    let pos = |n: &str| names.iter().position(|x| *x == n).unwrap();
    assert!(pos("C") < pos("B"));
    assert!(pos("B") < pos("A"));
    assert!(names.contains(&"D"));
}

#[test]
fn test_topological_order_puts_edge_starts_first() {
    let model = chain_model();
    let graph = dependency_graph(&model);
    let order = get_topological_order(&graph);
    let pos = |n: &str| order.iter().position(|x| x == n).unwrap();
    // Edges run from a used object to its user: B -> A and C -> B.
    assert!(pos("B") < pos("A"));
    assert!(pos("C") < pos("B"));
}

#[test]
fn test_topological_order_single_edge() {
    let mut g = petgraph::graph::DiGraph::<Object, ()>::new();
    let a = g.add_node(Object::new("A".to_string(), None));
    let b = g.add_node(Object::new("B".to_string(), None));
    g.add_edge(a, b, ());
    assert_eq!(get_topological_order(&g), vec!["A".to_string(), "B".to_string()]);
}

#[test]
fn test_linkml_tree_root_is_unused() {
    let model = chain_model();
    let linkml = LinkML::from_model(&model);
    let roots: Vec<&String> = linkml
        .classes
        .iter()
        .filter(|(_, c)| c.tree_root == Some(true))
        .map(|(n, _)| n)
        .collect();
    assert_eq!(roots.len(), 1);
    assert!(roots[0] == "A" || roots[0] == "D");
}
