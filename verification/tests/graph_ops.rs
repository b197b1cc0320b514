use graph::{Graph, GraphError};

fn init() -> (Graph<String>, usize, usize) {
    let mut graph: Graph<String> = Graph::new();
    let cat_id = graph.add_node("cat".to_string());
    let car_id = graph.add_node("car".to_string());

    (graph, cat_id, car_id)
}

#[test]
#[should_panic]
fn adding_edge_error() {
    let (mut graph, cat_id, _) = init();
    graph.add_edge(34, cat_id).unwrap();
}

#[test]
fn adding_edge() {
    let (mut graph, cat_id, car_id) = init();

    graph.add_edge(cat_id, car_id).expect("id error");
    graph.add_edge(cat_id, car_id).expect("id error");
    graph.add_edge(car_id, car_id).expect("id error");

    println!("{:?}", graph);
    assert_eq!(graph.get_adjacent_ids(&cat_id).unwrap(), vec![car_id]);
    assert_eq!(graph.get_adjacent_ids(&car_id).unwrap(), vec![car_id]);
}

#[test]
fn removing_edge() {
    let (mut graph, cat_id, car_id) = init();

    graph.add_edge(cat_id, car_id).expect("id error");
    println!("{:?}", graph);

    graph.add_edge(car_id, car_id).expect("id error");
    println!("{:?}", graph);

    graph.remove_edge(cat_id, car_id).expect("id error");
    graph.remove_edge(car_id, car_id).expect("id error");

    println!("{:?}", graph);
    assert_eq!(graph.get_adjacent_ids(&cat_id).unwrap(), Vec::<usize>::new());
    assert_eq!(graph.get_adjacent_ids(&car_id).unwrap(), Vec::<usize>::new());
}

#[test]
fn removing_node() {
    let (mut graph, cat_id, car_id) = init();

    graph.add_edge(cat_id, car_id).expect("id error");
    graph.add_edge(car_id, car_id).expect("id error");

    graph.remove_node(car_id).expect("id error");

    println!("{:?}", graph);
    assert_eq!(graph.get_adjacent_ids(&cat_id).unwrap(), Vec::<usize>::new());
    assert_eq!(graph.get_adjacent_ids(&1), Err(GraphError::IndexOutOfRange));
    assert_eq!(graph.get_tgf().unwrap(), "0 \"cat\"\n#\n");
}

#[test]
fn identifiers_count_up_from_zero() {
    let mut graph: Graph<String> = Graph::new();
    assert_eq!(graph.add_node("a".to_string()), 0);
    assert_eq!(graph.add_node("b".to_string()), 1);
    assert_eq!(graph.add_node("c".to_string()), 2);
}

#[test]
fn identifiers_are_not_reused() {
    let (mut graph, _, car_id) = init();
    graph.remove_node(car_id).unwrap();
    assert_eq!(graph.add_node("cow".to_string()), 2);
}

#[test]
fn add_edge_twice_is_add_edge_once() {
    let (mut once, cat_id, car_id) = init();
    once.add_edge(cat_id, car_id).unwrap();
    let (mut twice, _, _) = init();
    twice.add_edge(cat_id, car_id).unwrap();
    twice.add_edge(cat_id, car_id).unwrap();
    assert_eq!(once.get_adjacent_ids(&cat_id), twice.get_adjacent_ids(&cat_id));
    assert_eq!(once.get_tgf().unwrap(), twice.get_tgf().unwrap());
}

#[test]
fn self_loop_is_an_edge() {
    let (mut graph, cat_id, _) = init();
    assert_eq!(graph.add_edge(cat_id, cat_id), Ok(()));
    assert_eq!(graph.get_adjacent_ids(&cat_id).unwrap(), vec![cat_id]);
}

#[test]
fn edges_keep_their_order() {
    let mut graph: Graph<String> = Graph::new();
    let a = graph.add_node("a".to_string());
    let b = graph.add_node("b".to_string());
    let c = graph.add_node("c".to_string());
    graph.add_edge(a, c).unwrap();
    graph.add_edge(a, b).unwrap();
    graph.add_edge(a, a).unwrap();
    graph.add_edge(a, c).unwrap();
    assert_eq!(graph.get_adjacent_ids(&a).unwrap(), vec![c, b, a]);
    graph.remove_edge(a, b).unwrap();
    assert_eq!(graph.get_adjacent_ids(&a).unwrap(), vec![c, a]);
}

#[test]
fn removing_an_edge_that_is_not_there_changes_nothing() {
    let (mut graph, cat_id, car_id) = init();
    graph.add_edge(car_id, cat_id).unwrap();
    let before = graph.get_tgf().unwrap();
    assert_eq!(graph.remove_edge(cat_id, car_id), Ok(()));
    assert_eq!(graph.get_tgf().unwrap(), before);
}

#[test]
fn unknown_identifier_is_refused_and_nothing_changes() {
    let (mut graph, cat_id, car_id) = init();
    graph.add_edge(cat_id, car_id).unwrap();
    let before = graph.get_tgf().unwrap();
    assert_eq!(graph.add_edge(cat_id, 34), Err(GraphError::IdNotExist));
    assert_eq!(graph.add_edge(34, cat_id), Err(GraphError::IdNotExist));
    assert_eq!(graph.remove_edge(cat_id, 34), Err(GraphError::IdNotExist));
    assert_eq!(graph.remove_edge(34, cat_id), Err(GraphError::IdNotExist));
    assert_eq!(graph.remove_node(34), Err(GraphError::IdNotExist));
    assert_eq!(graph.get_tgf().unwrap(), before);
}

#[test]
fn removing_a_node_strips_the_edges_to_it() {
    let mut graph: Graph<String> = Graph::new();
    let a = graph.add_node("a".to_string());
    let b = graph.add_node("b".to_string());
    let c = graph.add_node("c".to_string());
    graph.add_edge(a, b).unwrap();
    graph.add_edge(a, c).unwrap();
    graph.add_edge(b, a).unwrap();
    graph.add_edge(c, a).unwrap();
    graph.add_edge(c, c).unwrap();
    graph.remove_node(a).unwrap();
    // b and c have moved one slot down
    assert_eq!(graph.get_adjacent_ids(&0).unwrap(), Vec::<usize>::new());
    assert_eq!(graph.get_adjacent_ids(&1).unwrap(), vec![c]);
    assert_eq!(graph.get_data(&0).unwrap(), "b");
    assert_eq!(graph.get_data(&1).unwrap(), "c");
    assert_eq!(graph.get_tgf().unwrap(), "1 \"b\"\n2 \"c\"\n#\n2 2\n");
    // by identifier the two are still found
    assert_eq!(graph.add_edge(b, c), Ok(()));
    assert_eq!(graph.add_edge(b, a), Err(GraphError::IdNotExist));
}

#[test]
fn lookups_are_by_position() {
    let (graph, cat_id, car_id) = init();
    assert_eq!(graph.get_data(&cat_id).unwrap(), "cat");
    assert_eq!(graph.get_data(&car_id).unwrap(), "car");
    assert_eq!(graph.get_data(&2), Err(GraphError::IndexOutOfRange));
    assert_eq!(graph.get_adjacent_ids(&2), Err(GraphError::IndexOutOfRange));
}

#[test]
fn node_ids_leaves_out_what_cannot_be_reached() {
    let mut graph: Graph<String> = Graph::new();
    let a = graph.add_node("a".to_string());
    let b = graph.add_node("b".to_string());
    let _c = graph.add_node("c".to_string());
    graph.add_edge(a, b).unwrap();
    assert_eq!(graph.node_ids().unwrap(), vec![0, 1]);
}

#[test]
fn node_ids_goes_deep_before_wide() {
    let mut graph: Graph<u32> = Graph::new();
    for i in 0..6 {
        graph.add_node(i);
    }
    graph.add_edge(0, 1).unwrap();
    graph.add_edge(0, 4).unwrap();
    graph.add_edge(1, 2).unwrap();
    graph.add_edge(1, 3).unwrap();
    graph.add_edge(2, 4).unwrap();
    graph.add_edge(4, 0).unwrap();
    graph.add_edge(3, 5).unwrap();
    assert_eq!(graph.node_ids().unwrap(), vec![0, 1, 2, 4, 3, 5]);
}

#[test]
fn node_ids_ends_on_a_cycle() {
    let (mut graph, cat_id, car_id) = init();
    graph.add_edge(cat_id, car_id).unwrap();
    graph.add_edge(car_id, cat_id).unwrap();
    graph.add_edge(car_id, car_id).unwrap();
    let ids = graph.node_ids().unwrap();
    assert_eq!(ids, vec![0, 1]);
}

#[test]
fn node_ids_never_repeats_and_never_exceeds_the_nodes() {
    let mut graph: Graph<u32> = Graph::new();
    for i in 0..5 {
        graph.add_node(i);
    }
    for from in 0..5 {
        for to in 0..5 {
            graph.add_edge(from, to).unwrap();
        }
    }
    let ids = graph.node_ids().unwrap();
    assert_eq!(ids, vec![0, 1, 2, 3, 4]);
    assert!(ids.len() <= 5);
}

#[test]
fn node_ids_needs_a_node_at_position_zero() {
    let graph: Graph<String> = Graph::new();
    assert_eq!(graph.node_ids(), Err(GraphError::IndexOutOfRange));
}

#[test]
fn node_ids_fails_on_an_edge_past_the_end() {
    let (mut graph, cat_id, car_id) = init();
    graph.add_edge(car_id, car_id).unwrap();
    graph.remove_node(cat_id).unwrap();
    // the node at position 0 now has an edge to identifier 1, and position 1 is empty
    assert_eq!(graph.node_ids(), Err(GraphError::IndexOutOfRange));
}

#[test]
fn next_id_is_the_identifier_that_add_node_returns() {
    let (mut graph, _, car_id) = init();
    assert_eq!(graph.next_id(), 2);
    graph.remove_node(car_id).unwrap();
    assert_eq!(graph.next_id(), 2);
    assert_eq!(graph.add_node("cow".to_string()), 2);
    assert_eq!(graph.next_id(), 3);
    let empty: Graph<String> = Graph::new();
    assert_eq!(empty.next_id(), 0);
}

#[test]
fn a_failed_read_is_an_io_error() {
    let failure = std::io::Error::new(std::io::ErrorKind::NotFound, "gr.txt");
    assert_eq!(GraphError::from(failure), GraphError::IoError);
}

#[test]
fn a_clone_is_a_graph_of_its_own() {
    let (mut graph, cat_id, car_id) = init();
    let copy = graph.clone();
    graph.add_edge(cat_id, car_id).unwrap();
    assert_eq!(copy.get_adjacent_ids(&cat_id).unwrap(), Vec::<usize>::new());
    assert_eq!(graph.get_adjacent_ids(&cat_id).unwrap(), vec![car_id]);
}
