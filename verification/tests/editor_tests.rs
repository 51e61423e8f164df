use node_editor::editor::{Editor, Input, Node, Output};
use node_editor::template::MyNodeTemplate;
use node_editor::value::{MyDataType, MyValueType};

fn int_of(v: &MyValueType) -> isize {
    match v {
        MyValueType::Isize { value } => *value,
        MyValueType::String { .. } => panic!("expected an integer value"),
    }
}

fn text_of(v: &MyValueType) -> String {
    match v {
        MyValueType::String { value } => value.clone(),
        MyValueType::Isize { .. } => panic!("expected a text value"),
    }
}

fn link(e: &Editor, node_id: usize, input_index: usize) -> usize {
    e.get_node(node_id).unwrap().get_input(input_index).get_connected_id()
}

fn targets(e: &Editor, node_id: usize) -> Vec<usize> {
    e.get_node(node_id).unwrap().get_output().get_connected_ids().clone()
}

/// A new-number node (id 1) and a repeat-string node (id 2).
fn number_and_repeat() -> Editor {
    let mut e = Editor::new();
    e.add_node(MyNodeTemplate::NewNumber.new());
    e.add_node(MyNodeTemplate::RepeatString.new());
    e
}

#[test]
fn input_new_takes_type_and_color_from_value() {
    let input = Input::new("count", MyValueType::Isize { value: 3 });
    assert_eq!(input.get_label(), "count");
    assert_eq!(input.get_connected_id(), 0);
    assert_eq!(input.get_input_type(), MyDataType::Isize);
    assert_eq!(input.get_color(), [68, 139, 211]);
    assert_eq!(int_of(&input.value), 3);
}

#[test]
fn output_new_is_unconnected() {
    let output = Output::new(MyDataType::String);
    assert!(output.get_connected_ids().is_empty());
    assert_eq!(output.get_output_type(), MyDataType::String);
    assert_eq!(output.get_color(), [38, 209, 111]);
}

#[test]
fn node_new_and_add_input() {
    let mut node = Node::new(MyNodeTemplate::RepeatString, "Custom", MyDataType::String);
    assert_eq!(node.get_title(), "Custom");
    assert_eq!(node.input_count(), 0);
    assert_eq!((node.get_x(), node.get_y(), node.w), (0, 0, 0));
    node.add_input("first", MyValueType::String { value: "a".to_string() });
    node.add_input("second", MyValueType::Isize { value: 2 });
    assert_eq!(node.input_count(), 2);
    assert_eq!(node.get_input(0).get_label(), "first");
    assert_eq!(node.get_input(1).get_label(), "second");
    assert_eq!(node.get_input(1).get_input_type(), MyDataType::Isize);
}

#[test]
fn new_editor_is_empty() {
    let e = Editor::new();
    assert!(e.get_nodes().is_empty());
    assert!(e.get_outputs_cache().is_empty());
    assert_eq!(e.get_current_id(), 0);
    assert!(!e.auto_save());
    assert_eq!((e.get_w(), e.get_h()), (0, 0));
    assert!(e.node_ids().is_empty());
}

#[test]
fn auto_save_switches() {
    let mut e = Editor::new();
    e.enable_auto_save();
    assert!(e.auto_save());
    e.disable_auto_save();
    assert!(!e.auto_save());
}

#[test]
fn add_node_gives_increasing_ids() {
    let e = number_and_repeat();
    assert_eq!(e.get_current_id(), 2);
    assert_eq!(e.get_node(1).unwrap().get_id(), 1);
    assert_eq!(e.get_node(2).unwrap().get_id(), 2);
    assert_eq!(e.get_node(2).unwrap().get_title(), "Repeat string");
    assert!(e.get_node(0).is_none());
    assert!(e.get_node(3).is_none());
    assert_eq!(e.node_ids(), vec![1, 2]);
}

#[test]
fn add_node_gives_a_fresh_id_after_removal() {
    let mut e = number_and_repeat();
    e.remove_node(2);
    e.add_node(MyNodeTemplate::NewNumber.new());
    assert_eq!(e.node_ids(), vec![1, 3]);
    assert_eq!(e.get_node(3).unwrap().get_id(), 3);
}

#[test]
fn connect_nodes_links_matching_types() {
    let mut e = number_and_repeat();
    e.connect_nodes(1, 2, 1);
    assert_eq!(link(&e, 2, 1), 1);
    assert_eq!(link(&e, 2, 0), 0);
    assert_eq!(targets(&e, 1), vec![2]);
}

#[test]
fn connect_nodes_refuses_mismatched_types() {
    let mut e = number_and_repeat();
    e.connect_nodes(1, 2, 0);
    assert_eq!(link(&e, 2, 0), 0);
    assert!(targets(&e, 1).is_empty());
}

#[test]
fn connect_nodes_refuses_a_loop() {
    let mut e = Editor::new();
    e.add_node(MyNodeTemplate::RepeatString.new());
    e.add_node(MyNodeTemplate::RepeatString.new());
    e.connect_nodes(1, 2, 0);
    assert_eq!(link(&e, 2, 0), 1);
    e.connect_nodes(2, 1, 0);
    assert_eq!(link(&e, 1, 0), 0);
    assert!(targets(&e, 2).is_empty());
}

#[test]
fn connect_nodes_refuses_a_node_feeding_itself() {
    let mut e = Editor::new();
    e.add_node(MyNodeTemplate::RepeatString.new());
    e.connect_nodes(1, 1, 0);
    assert_eq!(link(&e, 1, 0), 0);
    assert!(targets(&e, 1).is_empty());
}

#[test]
fn connect_nodes_refuses_a_longer_loop() {
    let mut e = Editor::new();
    for _ in 0..3 {
        e.add_node(MyNodeTemplate::RepeatString.new());
    }
    e.connect_nodes(1, 2, 0);
    e.connect_nodes(2, 3, 0);
    e.connect_nodes(3, 1, 0);
    assert_eq!(link(&e, 2, 0), 1);
    assert_eq!(link(&e, 3, 0), 2);
    assert_eq!(link(&e, 1, 0), 0);
}

#[test]
fn connect_nodes_allows_the_same_feeder_twice() {
    let mut e = Editor::new();
    e.add_node(MyNodeTemplate::NewNumber.new());
    e.add_node(MyNodeTemplate::RepeatString.new());
    e.add_node(MyNodeTemplate::RepeatString.new());
    e.connect_nodes(1, 2, 1);
    e.connect_nodes(1, 3, 1);
    assert_eq!(targets(&e, 1), vec![2, 3]);
}

#[test]
fn remove_connection_clears_the_socket() {
    let mut e = number_and_repeat();
    e.connect_nodes(1, 2, 1);
    e.remove_connection(2, 1);
    assert_eq!(link(&e, 2, 1), 0);
    assert!(targets(&e, 1).is_empty());
    assert!(e.is_well_formed());
}

#[test]
fn remove_connection_drops_one_listing_of_the_feeder() {
    let mut e = Editor::new();
    e.add_node(MyNodeTemplate::RepeatString.new());
    e.add_node(MyNodeTemplate::RepeatString.new());
    e.add_node(MyNodeTemplate::RepeatString.new());
    e.connect_nodes(1, 2, 0);
    e.connect_nodes(1, 3, 0);
    e.remove_connection(2, 0);
    assert_eq!(targets(&e, 1), vec![3]);
    e.remove_connection(2, 0);
    assert_eq!(targets(&e, 1), vec![3]);
}

#[test]
fn disconnected_nodes_can_both_be_deleted() {
    let mut e = number_and_repeat();
    e.connect_nodes(1, 2, 1);
    e.remove_connection(2, 1);
    e.remove_node(2);
    assert!(targets(&e, 1).is_empty());
    e.remove_node(1);
    assert!(e.get_nodes().is_empty());
}

#[test]
fn toggle_connection_connects_disconnects_and_replaces() {
    let mut e = Editor::new();
    e.add_node(MyNodeTemplate::NewNumber.new());
    e.add_node(MyNodeTemplate::NewNumber.new());
    e.add_node(MyNodeTemplate::RepeatString.new());
    e.toggle_connection(1, 3, 1);
    assert_eq!(link(&e, 3, 1), 1);
    e.toggle_connection(1, 3, 1);
    assert_eq!(link(&e, 3, 1), 0);
    e.toggle_connection(1, 3, 1);
    e.toggle_connection(2, 3, 1);
    assert_eq!(link(&e, 3, 1), 2);
    assert_eq!(targets(&e, 2), vec![3]);
}

#[test]
fn disconnect_node_to_remove_clears_both_sides() {
    let mut e = Editor::new();
    e.add_node(MyNodeTemplate::NewNumber.new());
    e.add_node(MyNodeTemplate::RepeatString.new());
    e.add_node(MyNodeTemplate::RepeatString.new());
    e.connect_nodes(1, 2, 1);
    e.connect_nodes(2, 3, 0);
    e.disconnect_node_to_remove(2);
    assert!(targets(&e, 1).is_empty());
    assert_eq!(link(&e, 3, 0), 0);
    assert_eq!(link(&e, 2, 1), 1);
    assert_eq!(e.node_ids(), vec![1, 2, 3]);
}

#[test]
fn remove_node_leaves_no_socket_fed_by_it() {
    let mut e = number_and_repeat();
    e.connect_nodes(1, 2, 1);
    e.remove_node(1);
    assert_eq!(e.node_ids(), vec![2]);
    assert_eq!(link(&e, 2, 1), 0);
}

#[test]
fn remove_node_drops_it_from_feeders() {
    let mut e = number_and_repeat();
    e.connect_nodes(1, 2, 1);
    e.remove_node(2);
    assert_eq!(e.node_ids(), vec![1]);
    assert!(targets(&e, 1).is_empty());
}

#[test]
fn evaluate_new_number() {
    let mut e = Editor::new();
    e.add_node(MyNodeTemplate::NewNumber.new());
    e.set_input_value(1, 0, "-7");
    assert_eq!(int_of(&e.evaluate_node(1)), -7);
    assert!(e.get_outputs_cache().is_empty());
}

#[test]
fn evaluate_repeat_string_through_a_connection() {
    let mut e = number_and_repeat();
    e.set_input_value(1, 0, "3");
    e.set_input_value(2, 0, "ab");
    e.connect_nodes(1, 2, 1);
    assert_eq!(text_of(&e.evaluate_node(2)), "ababab");
    // Evaluating again gives the same value.
    assert_eq!(text_of(&e.evaluate_node(2)), "ababab");
}

#[test]
fn evaluate_repeat_string_zero_times() {
    let mut e = number_and_repeat();
    e.set_input_value(2, 0, "xyz");
    assert_eq!(text_of(&e.evaluate_node(2)), "");
}

#[test]
fn evaluate_chained_repeats() {
    let mut e = Editor::new();
    e.add_node(MyNodeTemplate::RepeatString.new());
    e.add_node(MyNodeTemplate::RepeatString.new());
    e.set_input_value(1, 0, "ab");
    e.set_input_value(1, 1, "2");
    e.set_input_value(2, 1, "2");
    e.connect_nodes(1, 2, 0);
    assert_eq!(text_of(&e.evaluate_node(2)), "abababab");
}

#[test]
fn evaluate_input_uses_the_held_value_when_unconnected() {
    let e = number_and_repeat();
    let input = Input::new("n", MyValueType::Isize { value: 11 });
    assert_eq!(int_of(&e.evaluate_input(&input)), 11);
}

#[test]
fn evaluate_input_follows_the_connection() {
    let mut e = number_and_repeat();
    e.set_input_value(1, 0, "4");
    let input = Input::from_parts(1, MyDataType::Isize, [68, 139, 211], "n".to_string(), MyValueType::Isize {
        value: 99,
    });
    assert_eq!(int_of(&e.evaluate_input(&input)), 4);
}

#[test]
fn set_position_moves_the_node() {
    let mut e = number_and_repeat();
    e.set_position(2, 10, 20);
    assert_eq!((e.get_node(2).unwrap().get_x(), e.get_node(2).unwrap().get_y()), (10, 20));
    assert_eq!((e.get_node(1).unwrap().get_x(), e.get_node(1).unwrap().get_y()), (0, 0));
}

#[test]
fn set_input_value_parses_by_the_socket_type() {
    let mut e = number_and_repeat();
    e.set_input_value(2, 0, "a\\tb");
    e.set_input_value(2, 1, "nope");
    assert_eq!(text_of(&e.get_node(2).unwrap().get_input(0).value), "a\tb");
    assert_eq!(int_of(&e.get_node(2).unwrap().get_input(1).value), 0);
}

#[test]
fn add_node_by_title_places_the_node() {
    let mut e = Editor::new();
    e.add_node_by_title("Repeat string");
    assert_eq!(e.node_ids(), vec![1]);
    let node = e.get_node(1).unwrap();
    assert_eq!((node.get_x(), node.get_y()), (2, 2));
    assert_eq!(node.get_node_type(), MyNodeTemplate::RepeatString);
    e.add_node_by_title("Unknown node");
    assert_eq!(e.node_ids(), vec![1]);
    assert_eq!(e.get_current_id(), 1);
}

#[test]
fn try_evaluate_node_gives_the_value() {
    let mut e = number_and_repeat();
    e.set_input_value(1, 0, "2");
    e.set_input_value(2, 0, "ok");
    e.connect_nodes(1, 2, 1);
    assert_eq!(int_of(&e.try_evaluate_node(1).unwrap()), 2);
    assert_eq!(text_of(&e.try_evaluate_node(2).unwrap()), "okok");
    assert!(e.try_evaluate_node(7).is_none());
}

#[test]
fn try_evaluate_node_refuses_a_negative_count() {
    let mut e = number_and_repeat();
    e.set_input_value(1, 0, "-1");
    e.set_input_value(2, 0, "ok");
    e.connect_nodes(1, 2, 1);
    assert!(e.try_evaluate_node(2).is_none());
    e.set_input_value(2, 0, "");
    assert_eq!(text_of(&e.try_evaluate_node(2).unwrap()), "");
}

#[test]
fn try_evaluate_node_refuses_a_huge_count() {
    let mut e = Editor::new();
    e.add_node(MyNodeTemplate::RepeatString.new());
    e.set_input_value(1, 0, "ab");
    e.set_input_value(1, 1, &(isize::MAX / 4).to_string());
    assert!(e.try_evaluate_node(1).is_none());
}

#[test]
fn set_size_records_the_area() {
    let mut e = Editor::new();
    e.set_size(80, 24);
    assert_eq!((e.get_w(), e.get_h()), (80, 24));
}

#[test]
fn from_parts_round_trip() {
    let e = number_and_repeat();
    let node = e.get_node(2).unwrap();
    let mut inputs = Vec::new();
    for i in 0..node.input_count() {
        let input = node.get_input(i);
        inputs.push(Input::from_parts(
            input.get_connected_id(),
            input.get_input_type(),
            input.get_color(),
            input.get_label().to_string(),
            input.value.clone(),
        ));
    }
    let output = Output::from_parts(
        node.get_output().get_connected_ids().clone(),
        node.get_output().get_output_type(),
        node.get_output().get_color(),
    );
    let copy = Node::from_parts(
        node.get_id(),
        node.get_title().to_string(),
        node.get_node_type(),
        inputs,
        output,
        node.get_x(),
        node.get_y(),
        node.w,
    );
    assert_eq!(copy.get_id(), 2);
    assert_eq!(copy.get_title(), "Repeat string");
    assert_eq!(copy.input_count(), 2);
    let mut nodes = std::collections::HashMap::new();
    nodes.insert(2, copy);
    let rebuilt = Editor::from_parts(nodes, std::collections::HashMap::new(), 5, true, 3, 4);
    assert_eq!(rebuilt.node_ids(), vec![2]);
    assert_eq!(rebuilt.get_current_id(), 5);
    assert!(rebuilt.auto_save());
}

#[test]
fn disconnect_then_drop_node_is_remove_node() {
    let mut a = number_and_repeat();
    a.connect_nodes(1, 2, 1);
    a.disconnect_node_to_remove(1);
    a.drop_node(1);
    let mut b = number_and_repeat();
    b.connect_nodes(1, 2, 1);
    b.remove_node(1);
    assert_eq!(a.node_ids(), b.node_ids());
    assert_eq!(link(&a, 2, 1), link(&b, 2, 1));
    assert!(a.is_well_formed());
}

#[test]
fn connected_sockets_receive_values_of_their_type() {
    let mut e = Editor::new();
    e.add_node(MyNodeTemplate::RepeatString.new());
    e.add_node(MyNodeTemplate::RepeatString.new());
    e.set_input_value(1, 0, "x");
    e.set_input_value(1, 1, "3");
    e.set_input_value(2, 1, "1");
    e.connect_nodes(1, 2, 1);
    assert_eq!(link(&e, 2, 1), 0);
    e.connect_nodes(1, 2, 0);
    let supplied = e.evaluate_input(e.get_node(2).unwrap().get_input(0));
    assert_eq!(supplied.get_data_type(), e.get_node(2).unwrap().get_input(0).get_input_type());
    assert_eq!(text_of(&supplied), "xxx");
}
