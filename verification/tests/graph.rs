use rmu::dgraph::DGraph;
use rmu::graph::{Graph, GraphConnectError};

#[test]
fn graph() {
    let mut g = Graph::<()>::new();

    assert_eq!(g.add_node("a".into(), ()), None);
    assert_eq!(g.add_node("b".into(), ()), None);
    assert_eq!(g.add_node("c".into(), ()), None);
    assert_eq!(g.add_node("c".into(), ()), Some(()));

    assert_eq!(g.connect("i".into(), "a".into(), "b".into()), Ok(None));
    assert_eq!(g.connect("j".into(), "a".into(), "c".into()), Ok(None));
    assert_eq!(
        g.connect("k".into(), "a".into(), "d".into()),
        Err(GraphConnectError::NodeNotExit)
    );
}

#[test]
fn direct_graph() {
    let mut dg = DGraph::<()>::new();

    assert_eq!(dg.add_node("a".into(), ()), None);
    assert_eq!(dg.add_node("b".into(), ()), None);
    assert_eq!(dg.add_node("c".into(), ()), None);
    assert_eq!(dg.add_node("c".into(), ()), Some(()));

    assert_eq!(dg.connect("a".into(), "b".into()), Ok(true));
    assert_eq!(dg.connect("a".into(), "c".into()), Ok(true));
    assert_eq!(
        dg.connect("a".into(), "d".into()),
        Err(GraphConnectError::NodeNotExit)
    );

    assert_eq!(dg.acyclic_connect("b".into(), "c".into()), Ok(true));
    assert_eq!(
        dg.acyclic_connect("b".into(), "a".into()),
        Err(GraphConnectError::CyclicConnect)
    );
}

#[test]
fn add_node_returns_previous_payload() {
    let mut g = Graph::<u32>::new();
    assert_eq!(g.add_node("n".into(), 1), None);
    assert_eq!(g.add_node("n".into(), 2), Some(1));
    assert_eq!(g.add_node("n".into(), 3), Some(2));

    let mut dg = DGraph::<u32>::new();
    assert_eq!(dg.add_node("n".into(), 7), None);
    assert_eq!(dg.add_node("n".into(), 8), Some(7));
    assert_eq!(dg.add_node("n".into(), 9), Some(8));
}

#[test]
fn connect_requires_existing_endpoints() {
    let mut g = Graph::<()>::new();
    assert_eq!(
        g.connect("e".into(), "x".into(), "y".into()),
        Err(GraphConnectError::NodeNotExit)
    );

    let mut dg = DGraph::<()>::new();
    assert_eq!(
        dg.connect("x".into(), "y".into()),
        Err(GraphConnectError::NodeNotExit)
    );
    assert_eq!(
        dg.acyclic_connect("x".into(), "y".into()),
        Err(GraphConnectError::NodeNotExit)
    );

    // one endpoint present is not enough, and nothing is mutated
    assert_eq!(dg.add_node("x".into(), ()), None);
    assert_eq!(
        dg.connect("x".into(), "y".into()),
        Err(GraphConnectError::NodeNotExit)
    );
    assert_eq!(
        dg.acyclic_connect("y".into(), "x".into()),
        Err(GraphConnectError::NodeNotExit)
    );
    assert_eq!(dg.add_node("y".into(), ()), None);
    assert_eq!(dg.connect("x".into(), "y".into()), Ok(true));
}

#[test]
fn undirected_edge_overwrite_and_loops() {
    let mut g = Graph::<()>::new();
    assert_eq!(g.add_node("a".into(), ()), None);
    assert_eq!(g.add_node("b".into(), ()), None);

    assert_eq!(g.connect("e".into(), "a".into(), "b".into()), Ok(None));
    // reusing the edge label hands back the pair it connected
    assert_eq!(
        g.connect("e".into(), "b".into(), "a".into()),
        Ok(Some(("a".into(), "b".into())))
    );
    // self-loops and parallel edges are permitted
    assert_eq!(g.connect("loop".into(), "a".into(), "a".into()), Ok(None));
    assert_eq!(g.connect("p".into(), "b".into(), "a".into()), Ok(None));
}

#[test]
fn directed_connect_is_idempotent() {
    let mut dg = DGraph::<()>::new();
    assert_eq!(dg.add_node("a".into(), ()), None);
    assert_eq!(dg.add_node("b".into(), ()), None);
    assert_eq!(dg.connect("a".into(), "b".into()), Ok(true));
    assert_eq!(dg.connect("a".into(), "b".into()), Ok(false));
    assert_eq!(dg.acyclic_connect("a".into(), "b".into()), Ok(false));
}

#[test]
fn self_loop_is_rejected() {
    let mut dg = DGraph::<()>::new();
    assert_eq!(dg.add_node("a".into(), ()), None);
    assert_eq!(
        dg.acyclic_connect("a".into(), "a".into()),
        Err(GraphConnectError::CyclicConnect)
    );
    // the plain insertion accepts the same edge
    assert_eq!(dg.connect("a".into(), "a".into()), Ok(true));
}

#[test]
fn transitive_cycle_is_rejected() {
    let mut dg = DGraph::<()>::new();
    assert_eq!(dg.add_node("a".into(), ()), None);
    assert_eq!(dg.add_node("b".into(), ()), None);
    assert_eq!(dg.add_node("c".into(), ()), None);
    assert_eq!(dg.acyclic_connect("a".into(), "b".into()), Ok(true));
    assert_eq!(dg.acyclic_connect("b".into(), "c".into()), Ok(true));
    // a reaches c through b, so the back edge is refused
    assert_eq!(
        dg.acyclic_connect("c".into(), "a".into()),
        Err(GraphConnectError::CyclicConnect)
    );
    // an edge that closes no cycle is still accepted
    assert_eq!(dg.acyclic_connect("a".into(), "c".into()), Ok(true));
}

#[test]
fn reachability_check_terminates_on_cyclic_graph() {
    let mut dg = DGraph::<()>::new();
    assert_eq!(dg.add_node("a".into(), ()), None);
    assert_eq!(dg.add_node("b".into(), ()), None);
    assert_eq!(dg.add_node("c".into(), ()), None);
    // build a cycle through the unchecked insertion
    assert_eq!(dg.connect("a".into(), "b".into()), Ok(true));
    assert_eq!(dg.connect("b".into(), "a".into()), Ok(true));
    // the guarded insertion still answers: c is not reachable from a
    assert_eq!(dg.acyclic_connect("c".into(), "a".into()), Ok(true));
    // and a cycle through the existing loop is still detected
    assert_eq!(
        dg.acyclic_connect("b".into(), "c".into()),
        Err(GraphConnectError::CyclicConnect)
    );
}
