use copper::common::CuListsManager;
use copper::config::{CuConfig, Node, NodeInstanceConfig};
use copper::curuntime::{compute_runtime_plan, node_role, CuRuntime, TaskRole};
use copper::{CuError, CuResult};

pub struct TestSource {}

impl TestSource {
    fn new(_config: Option<&NodeInstanceConfig>) -> CuResult<Self> {
        Ok(Self {})
    }
}

pub struct TestSink {}

impl TestSink {
    fn new(_config: Option<&NodeInstanceConfig>) -> CuResult<Self> {
        Ok(Self {})
    }
}

type Tasks = (TestSource, TestSink);
type Msgs = ((),);

fn tasks_instanciator(all_instances_configs: Vec<Option<&NodeInstanceConfig>>) -> CuResult<Tasks> {
    Ok((
        TestSource::new(all_instances_configs[0])?,
        TestSink::new(all_instances_configs[1])?,
    ))
}

#[test]
fn test_runtime_instanciation() {
    let mut config = CuConfig::default();
    config.add_node(Node::new("a", "TestSource"));
    config.add_node(Node::new("b", "TestSink"));
    config.connect(0, 1, "()").unwrap();
    let runtime = CuRuntime::<Tasks, Msgs>::new(&config, tasks_instanciator);
    assert!(runtime.is_ok());
}

#[test]
fn failing_factory_aborts_construction() {
    let mut config = CuConfig::default();
    config.add_node(Node::new("a", "TestSource"));
    config.add_node(Node::new("b", "TestSink"));
    let runtime = CuRuntime::<Tasks, Msgs>::new(&config, |_configs| {
        Err(CuError::Message(String::from("broken driver")))
    });
    match runtime {
        Err(CuError::TaskInstantiationError(cause)) => {
            assert_eq!(*cause, CuError::Message(String::from("broken driver")));
        }
        _ => panic!("expected a task instantiation error"),
    }
}

#[test]
fn plan_respects_dependencies() {
    let mut config = CuConfig::default();
    let a = config.add_node(Node::new("a", "src"));
    let b = config.add_node(Node::new("b", "mid"));
    let c = config.add_node(Node::new("c", "sink"));
    config.connect(c, a, "m").unwrap();
    config.connect(a, b, "m").unwrap();
    let plan = compute_runtime_plan(&config).unwrap();
    let order: Vec<u32> = plan.iter().map(|p| p.0).collect();
    let pos = |v: u32| order.iter().position(|&x| x == v).unwrap();
    assert_eq!(order.len(), 3);
    assert!(pos(c) < pos(a));
    assert!(pos(a) < pos(b));
}

#[test]
fn scenario_linear_pipeline() {
    let mut config = CuConfig::default();
    let a = config.add_node(Node::new("a", "source"));
    let b = config.add_node(Node::new("b", "transform"));
    let c = config.add_node(Node::new("c", "sink"));
    config.connect(a, b, "m").unwrap();
    config.connect(b, c, "m").unwrap();

    let plan = compute_runtime_plan(&config).unwrap();
    let order: Vec<u32> = plan.iter().map(|p| p.0).collect();
    assert_eq!(order, vec![a, b, c]);
    assert_eq!(plan[0].1.get_id(), "a");
    assert_eq!(plan[2].1.get_id(), "c");

    let mut manager: CuListsManager<i32> = CuListsManager::new(10).unwrap();
    let mut evicted = Vec::new();
    for iteration in 0..15 {
        if let Some(old) = manager.push(iteration) {
            evicted.push(old);
        }
    }
    assert_eq!(manager.len(), 10);
    assert_eq!(evicted, vec![0, 1, 2, 3, 4]);
    let newest_first: Vec<i32> = manager.recent(10).into_iter().copied().collect();
    assert_eq!(newest_first, vec![14, 13, 12, 11, 10, 9, 8, 7, 6, 5]);
}

#[test]
fn scenario_cycle_is_fatal() {
    let mut config = CuConfig::default();
    let a = config.add_node(Node::new("a", "source"));
    let b = config.add_node(Node::new("b", "transform"));
    let c = config.add_node(Node::new("c", "sink"));
    config.connect(a, b, "m").unwrap();
    config.connect(b, c, "m").unwrap();
    config.connect(c, a, "m").unwrap();
    let r = compute_runtime_plan(&config);
    assert!(matches!(r, Err(CuError::CycleDetected)));
}

#[test]
fn roles_follow_topology() {
    let mut config = CuConfig::default();
    let a = config.add_node(Node::new("a", "source"));
    let b = config.add_node(Node::new("b", "transform"));
    let c = config.add_node(Node::new("c", "sink"));
    let d = config.add_node(Node::new("d", "isolated"));
    config.connect(a, b, "m").unwrap();
    config.connect(b, c, "m").unwrap();
    assert_eq!(node_role(&config, a), TaskRole::Source);
    assert_eq!(node_role(&config, b), TaskRole::Transform);
    assert_eq!(node_role(&config, c), TaskRole::Sink);
    assert_eq!(node_role(&config, d), TaskRole::Source);
}

#[test]
fn plan_breaks_ties_by_lowest_index() {
    let mut config = CuConfig::default();
    let a = config.add_node(Node::new("a", "t"));
    let b = config.add_node(Node::new("b", "t"));
    let c = config.add_node(Node::new("c", "t"));
    let d = config.add_node(Node::new("d", "t"));
    config.connect(d, a, "m").unwrap();
    let plan = compute_runtime_plan(&config).unwrap();
    let order: Vec<u32> = plan.iter().map(|p| p.0).collect();
    assert_eq!(order, vec![b, c, d, a]);
}
