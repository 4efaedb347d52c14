use copper::config::{CuConfig, Node, Value};
use copper::CuError;

#[test]
fn test_base_period() {
    let node = Node::new("test", "test").set_base_period(1_000_000_000);
    assert_eq!(node.base_period(), Some(1_000_000_000));

    let node = Node::new("test2", "package::Plugin").set_base_period(500_000_000);
    assert_eq!(node.base_period(), Some(500_000_000));
}

#[test]
fn test_plain_serialize() {
    let mut config = CuConfig::default();
    let n1 = config.add_node(Node::new("test1", "package::Plugin1"));
    let n2 = config.add_node(Node::new("test2", "package::Plugin2"));
    config.connect(n1, n2, "msgpkg::MsgType").unwrap();
    let serialized = config.serialize_ron();
    let deserialized = CuConfig::deserialize_ron(&serialized).unwrap();
    assert_eq!(
        config.get_all_nodes().len(),
        deserialized.get_all_nodes().len()
    );
    assert_eq!(
        config.get_all_edges().len(),
        deserialized.get_all_edges().len()
    );
}

#[test]
fn test_serialize_with_params() {
    let mut config = CuConfig::default();
    let mut camera =
        Node::new("copper-camera", "camerapkg::Camera").set_base_period(60_000_000_000);
    camera.set_param("resolution-height", Value::from(1080));
    config.add_node(camera);
    let serialized = config.serialize_ron();
    let deserialized = CuConfig::deserialize_ron(&serialized).unwrap();
    assert_eq!(
        deserialized
            .get_node(0)
            .unwrap()
            .get_param("resolution-height")
            .unwrap()
            .as_integer()
            .unwrap(),
        1080
    );
}

#[test]
fn round_trip_preserves_everything() {
    let mut config = CuConfig::default();
    let mut a = Node::new("alpha", "pkg::A").set_base_period(25);
    a.set_param("gain", Value::from(3));
    a.set_param("mode", Value::from(String::from("fast")));
    let b = Node::new("beta", "pkg::B");
    let na = config.add_node(a);
    let nb = config.add_node(b);
    config.connect(na, nb, "pkg::Msg").unwrap();
    config.connect(na, nb, "pkg::Msg2").unwrap();

    let text = config.serialize_ron();
    let back = CuConfig::deserialize_ron(&text).unwrap();

    let nodes = back.get_all_nodes();
    assert_eq!(nodes.len(), 2);
    assert_eq!(nodes[0].get_id(), "alpha");
    assert_eq!(nodes[0].get_type(), "pkg::A");
    assert_eq!(nodes[0].base_period(), Some(25));
    assert_eq!(nodes[0].get_param("gain").unwrap().as_integer().unwrap(), 3);
    assert_eq!(
        nodes[0].get_param("mode").unwrap().as_text().unwrap(),
        "fast"
    );
    assert_eq!(nodes[1].get_id(), "beta");
    assert_eq!(nodes[1].base_period(), None);

    let edges = back.get_all_edges();
    assert_eq!(edges.len(), 2);
    assert_eq!(edges[0], (na, nb, String::from("pkg::Msg")));
    assert_eq!(edges[1], (na, nb, String::from("pkg::Msg2")));
}

#[test]
fn serialized_text_is_exact() {
    let mut config = CuConfig::default();
    config.add_node(Node::new("a", "t"));
    assert_eq!(config.serialize_ron(), "1:t1:a+1:t__\n0:");
}

#[test]
fn float_bits_round_trip_exactly() {
    let mut config = CuConfig::default();
    let mut n = Node::new("n", "t");
    n.set_param("ratio", Value::FloatBits(3.25f64.to_bits()));
    config.add_node(n);
    let back = CuConfig::deserialize_ron(&config.serialize_ron()).unwrap();
    let bits = back
        .get_node(0)
        .unwrap()
        .get_param("ratio")
        .unwrap()
        .as_float_bits()
        .unwrap();
    assert_eq!(f64::from_bits(bits), 3.25);
}

#[test]
fn camera_base_period_round_trips_in_nanoseconds() {
    let mut config = CuConfig::default();
    let camera = Node::new("camera", "camerapkg::Camera").set_base_period(60_000_000_000);
    config.add_node(camera);
    assert_eq!(
        config.get_node(0).unwrap().base_period(),
        Some(60_000_000_000)
    );
    let back = CuConfig::deserialize_ron(&config.serialize_ron()).unwrap();
    assert_eq!(
        back.get_node(0).unwrap().base_period(),
        Some(60_000_000_000)
    );
}

#[test]
fn extreme_integer_params_round_trip() {
    let mut config = CuConfig::default();
    let mut n = Node::new("n", "t").set_base_period(i64::MIN);
    n.set_param("low", Value::from(i64::MIN));
    n.set_param("high", Value::from(i64::MAX));
    n.set_param("minus", Value::from(-42));
    config.add_node(n);
    let back = CuConfig::deserialize_ron(&config.serialize_ron()).unwrap();
    let node = back.get_node(0).unwrap();
    assert_eq!(node.base_period(), Some(i64::MIN));
    assert_eq!(node.get_param("low").unwrap().as_integer(), Ok(i64::MIN));
    assert_eq!(node.get_param("high").unwrap().as_integer(), Ok(i64::MAX));
    assert_eq!(node.get_param("minus").unwrap().as_integer(), Ok(-42));
}

#[test]
fn param_type_mismatch_is_reported() {
    let mut node = Node::new("n", "t");
    node.set_param("name", Value::from(String::from("x")));
    let v = node.get_param("name").unwrap();
    assert_eq!(v.as_integer(), Err(CuError::ParamTypeMismatch));
    assert_eq!(v.as_float_bits(), Err(CuError::ParamTypeMismatch));
    let w = Value::from(7);
    assert_eq!(w.as_text(), Err(CuError::ParamTypeMismatch));
    assert_eq!(w.as_integer(), Ok(7));
}

#[test]
fn set_param_replaces_existing_key() {
    let mut node = Node::new("n", "t");
    node.set_param("height", Value::from(720));
    node.set_param("height", Value::from(1080));
    assert_eq!(
        node.get_param("height").unwrap().as_integer().unwrap(),
        1080
    );
    assert_eq!(node.get_param("missing").map(|_| ()), None);
}

#[test]
fn connect_rejects_unknown_indices() {
    let mut config = CuConfig::default();
    assert_eq!(
        config.connect(0, 1, "m"),
        Err(CuError::InvalidNodeReference(0))
    );
    config.add_node(Node::new("a", "t"));
    assert_eq!(
        config.connect(0, 3, "m"),
        Err(CuError::InvalidNodeReference(3))
    );
    assert_eq!(config.connect(0, 0, "m"), Ok(()));
}

#[test]
fn deserialize_rejects_malformed_text() {
    assert!(matches!(
        CuConfig::deserialize_ron("not a config"),
        Err(CuError::ConfigParseError)
    ));
    assert!(matches!(
        CuConfig::deserialize_ron(""),
        Err(CuError::ConfigParseError)
    ));
    assert!(matches!(
        CuConfig::deserialize_ron("1:t1:a+1:t__\n0:junk"),
        Err(CuError::ConfigParseError)
    ));
}

#[test]
fn deserialize_reports_unresolved_node_id() {
    let r = CuConfig::deserialize_ron("0:1:c1:a1:b1:m\n");
    assert!(matches!(r, Err(CuError::UnresolvedNodeReference(id)) if id == "a"));
}

#[test]
fn edge_queries_follow_insertion_order() {
    let mut config = CuConfig::default();
    let a = config.add_node(Node::new("a", "t"));
    let b = config.add_node(Node::new("b", "t"));
    let c = config.add_node(Node::new("c", "t"));
    config.connect(a, b, "m0").unwrap();
    config.connect(a, c, "m1").unwrap();
    config.connect(b, c, "m2").unwrap();
    assert_eq!(config.get_src_edges(a), vec![0, 1]);
    assert_eq!(config.get_dst_edges(c), vec![1, 2]);
    assert_eq!(config.get_edge_weight(1), Some(String::from("m1")));
    assert_eq!(config.get_edge_weight(9), None);
}

#[test]
fn render_lists_nodes_and_edges() {
    let mut config = CuConfig::default();
    let a = config.add_node(Node::new("a", "t"));
    let b = config.add_node(Node::new("b", "u"));
    config.connect(a, b, "m").unwrap();
    assert_eq!(
        config.render(),
        "digraph {\n  0 [label=\"a/t\"]\n  1 [label=\"b/u\"]\n  0 -> 1\n}\n"
    );
}
