use std::collections::HashMap;

use node_editor::editor::{Editor, Input, Node, Output};
use node_editor::template::MyNodeTemplate;
use node_editor::value::{MyDataType, MyValueType};

/// A repeat-string node with the given id, its text socket fed by `feeder` (0 for none),
/// listing `targets` on its output.
fn repeat_node(id: usize, feeder: usize, targets: Vec<usize>) -> Node {
    let inputs = vec![
        Input::from_parts(feeder, MyDataType::String, [38, 209, 111], "string".to_string(), MyValueType::String {
            value: String::new(),
        }),
        Input::from_parts(0, MyDataType::Isize, [68, 139, 211], "number".to_string(), MyValueType::Isize {
            value: 0,
        }),
    ];
    let output = Output::from_parts(targets, MyDataType::String, [38, 209, 111]);
    Node::from_parts(id, "Repeat string".to_string(), MyNodeTemplate::RepeatString, inputs, output, 0, 0, 0)
}

fn editor_of(nodes: Vec<(usize, Node)>, current_id: usize) -> Editor {
    let map: HashMap<usize, Node> = nodes.into_iter().collect();
    Editor::from_parts(map, HashMap::new(), current_id, false, 0, 0)
}

#[test]
fn editors_built_by_commands_are_well_formed() {
    let mut e = Editor::new();
    assert!(e.is_well_formed());
    e.add_node(MyNodeTemplate::NewNumber.new());
    e.add_node(MyNodeTemplate::RepeatString.new());
    e.add_node(MyNodeTemplate::RepeatString.new());
    e.connect_nodes(1, 2, 1);
    e.connect_nodes(2, 3, 0);
    assert!(e.is_well_formed());
    e.remove_connection(3, 0);
    assert!(e.is_well_formed());
    e.remove_node(1);
    assert!(e.is_well_formed());
}

#[test]
fn a_chain_read_back_is_well_formed() {
    let e = editor_of(vec![(1, repeat_node(1, 0, vec![2])), (2, repeat_node(2, 1, vec![]))], 2);
    assert!(e.is_well_formed());
}

#[test]
fn a_loop_is_not_well_formed() {
    let e = editor_of(vec![(1, repeat_node(1, 2, vec![2])), (2, repeat_node(2, 1, vec![1]))], 2);
    assert!(!e.is_well_formed());
    let e = editor_of(vec![(1, repeat_node(1, 1, vec![1]))], 1);
    assert!(!e.is_well_formed());
}

#[test]
fn a_dangling_link_is_not_well_formed() {
    let e = editor_of(vec![(1, repeat_node(1, 5, vec![]))], 1);
    assert!(!e.is_well_formed());
}

#[test]
fn an_unlisted_link_is_not_well_formed() {
    let e = editor_of(vec![(1, repeat_node(1, 0, vec![])), (2, repeat_node(2, 1, vec![]))], 2);
    assert!(!e.is_well_formed());
}

#[test]
fn ids_out_of_range_or_misrecorded_are_not_well_formed() {
    let e = editor_of(vec![(1, repeat_node(1, 0, vec![])), (3, repeat_node(3, 0, vec![]))], 2);
    assert!(!e.is_well_formed());
    let e = editor_of(vec![(0, repeat_node(0, 0, vec![]))], 2);
    assert!(!e.is_well_formed());
    let e = editor_of(vec![(1, repeat_node(2, 0, vec![]))], 2);
    assert!(!e.is_well_formed());
}

#[test]
fn extra_listings_are_not_well_formed() {
    let e = editor_of(vec![(1, repeat_node(1, 0, vec![2, 2])), (2, repeat_node(2, 1, vec![]))], 2);
    assert!(!e.is_well_formed());
    let e = editor_of(vec![(1, repeat_node(1, 0, vec![2])), (2, repeat_node(2, 0, vec![]))], 2);
    assert!(!e.is_well_formed());
}

#[test]
fn a_listing_of_a_missing_node_is_not_well_formed() {
    let e = editor_of(vec![(1, repeat_node(1, 0, vec![7]))], 1);
    assert!(!e.is_well_formed());
}
