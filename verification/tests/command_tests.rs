use node_editor::command::{parse_command, split_at, trim, Command, Reaction};
use node_editor::editor::Editor;
use node_editor::value::MyValueType;

fn apply(e: &mut Editor, line: &str) -> Reaction {
    e.apply_command(parse_command(line))
}

#[test]
fn trim_removes_white_space_at_both_ends() {
    assert_eq!(trim("  calc_out 1 \n"), "calc_out 1");
    assert_eq!(trim("\t\r\n "), "");
    assert_eq!(trim("a b"), "a b");
    assert_eq!(trim("\u{3000}x\u{a0}"), "x");
}

#[test]
fn split_at_keeps_empty_pieces() {
    assert_eq!(split_at("1 2 3", ' '), vec!["1", "2", "3"]);
    assert_eq!(split_at("1  2", ' '), vec!["1", "", "2"]);
    assert_eq!(split_at("", ' '), vec![""]);
    assert_eq!(split_at("a\n", '\n'), vec!["a", ""]);
}

#[test]
fn parse_calc_out() {
    assert!(matches!(parse_command("calc_out 12"), Command::CalcOut { node_id: 12 }));
    assert!(matches!(parse_command("  calc_out 3  "), Command::CalcOut { node_id: 3 }));
    assert!(matches!(parse_command("calc_out x"), Command::CalcOut { node_id: 0 }));
    assert!(matches!(parse_command("calc_out +4"), Command::CalcOut { node_id: 4 }));
    assert!(matches!(parse_command("calc_out"), Command::Unknown));
}

#[test]
fn parse_pos_and_con() {
    assert!(matches!(parse_command("pos 1 10 20"), Command::Pos { node_id: 1, x: 10, y: 20 }));
    assert!(matches!(parse_command("pos 1 x 20"), Command::Pos { node_id: 1, x: 0, y: 20 }));
    assert!(matches!(parse_command("pos 1 2"), Command::WrongArgCount));
    assert!(matches!(parse_command("pos 1  2 3"), Command::WrongArgCount));
    assert!(matches!(
        parse_command("con 1 2 0"),
        Command::Con { from_node_id: 1, to_node_id: 2, input_index: 0 }
    ));
    assert!(matches!(parse_command("con 1 2 0 5"), Command::WrongArgCount));
}

#[test]
fn parse_set_val() {
    match parse_command("set_val 2 1 hello") {
        Command::SetVal { node_id, input_index, text } => {
            assert_eq!((node_id, input_index), (2, 1));
            assert_eq!(text, "hello");
        },
        other => panic!("unexpected command {:?}", other),
    }
    assert!(matches!(parse_command("set_val 2 1 two words"), Command::WrongArgCount));
    assert!(matches!(parse_command("set_val 2"), Command::WrongArgCount));
    match parse_command("set_val 3 0") {
        Command::SetVal { node_id, input_index, text } => {
            assert_eq!((node_id, input_index), (3, 0));
            assert_eq!(text, "");
        },
        other => panic!("unexpected command {:?}", other),
    }
}

#[test]
fn set_val_without_a_value_sets_the_default() {
    let mut e = Editor::new();
    apply(&mut e, "add_node Repeat string");
    apply(&mut e, "set_val 1 0 abc");
    apply(&mut e, "set_val 1 1 4");
    apply(&mut e, "set_val 1 0");
    apply(&mut e, "set_val 1 1");
    let node = e.get_node(1).unwrap();
    assert!(matches!(&node.get_input(0).value, MyValueType::String { value } if value.is_empty()));
    assert!(matches!(node.get_input(1).value, MyValueType::Isize { value: 0 }));
}

#[test]
fn con_then_del_node_deletes_both_nodes() {
    let mut e = Editor::new();
    apply(&mut e, "add_node New number");
    apply(&mut e, "add_node Repeat string");
    apply(&mut e, "con 1 2 1");
    apply(&mut e, "con 1 2 1");
    assert!(e.get_node(1).unwrap().get_output().get_connected_ids().is_empty());
    assert!(e.is_well_formed());
}

#[test]
fn parse_add_and_del_node() {
    match parse_command("add_node New number") {
        Command::AddNode { title } => assert_eq!(title, "New number"),
        other => panic!("unexpected command {:?}", other),
    }
    assert!(matches!(parse_command("del_node 4"), Command::DelNode { node_id: Some(4) }));
    assert!(matches!(parse_command("del_node four"), Command::DelNode { node_id: None }));
    assert!(matches!(parse_command("del_node -1"), Command::DelNode { node_id: None }));
}

#[test]
fn parse_save_and_load_add_the_extension() {
    match parse_command("save graphs/first") {
        Command::Save { path } => assert_eq!(path, "graphs/first.ane"),
        other => panic!("unexpected command {:?}", other),
    }
    match parse_command("load first") {
        Command::Load { path } => assert_eq!(path, "first.ane"),
        other => panic!("unexpected command {:?}", other),
    }
}

#[test]
fn parse_switches_quit_and_unknown() {
    assert!(matches!(parse_command("autosave on"), Command::AutoSaveOn));
    assert!(matches!(parse_command(" autosave off "), Command::AutoSaveOff));
    assert!(matches!(parse_command("autosave"), Command::Unknown));
    assert!(matches!(parse_command("q"), Command::Quit));
    assert!(matches!(parse_command("quit"), Command::Unknown));
    assert!(matches!(parse_command(""), Command::Unknown));
}

#[test]
fn commands_build_and_evaluate_a_graph() {
    let mut e = Editor::new();
    assert!(matches!(apply(&mut e, "add_node New number"), Reaction::Continue));
    assert!(matches!(apply(&mut e, "add_node Repeat string"), Reaction::Continue));
    assert!(matches!(apply(&mut e, "set_val 1 0 2"), Reaction::Continue));
    assert!(matches!(apply(&mut e, "set_val 2 0 xy"), Reaction::Continue));
    assert!(matches!(apply(&mut e, "con 1 2 1"), Reaction::Changed));
    match apply(&mut e, "calc_out 2") {
        Reaction::ShowOutput { text } => assert_eq!(text, "xyxy"),
        other => panic!("unexpected reaction {:?}", other),
    }
    assert!(matches!(apply(&mut e, "calc_out 9"), Reaction::Continue));
    assert!(matches!(apply(&mut e, "set_val 1 0 -3"), Reaction::Continue));
    assert!(matches!(apply(&mut e, "calc_out 2"), Reaction::Abort));
}

#[test]
fn con_command_toggles_the_connection() {
    let mut e = Editor::new();
    apply(&mut e, "add_node New number");
    apply(&mut e, "add_node Repeat string");
    apply(&mut e, "con 1 2 1");
    assert_eq!(e.get_node(2).unwrap().get_input(1).get_connected_id(), 1);
    apply(&mut e, "con 1 2 1");
    assert_eq!(e.get_node(2).unwrap().get_input(1).get_connected_id(), 0);
}

#[test]
fn pos_and_set_val_commands_change_the_node() {
    let mut e = Editor::new();
    apply(&mut e, "add_node New number");
    apply(&mut e, "pos 1 7 9");
    apply(&mut e, "set_val 1 0 -5");
    let node = e.get_node(1).unwrap();
    assert_eq!((node.get_x(), node.get_y()), (7, 9));
    assert!(matches!(node.get_input(0).value, MyValueType::Isize { value: -5 }));
}

#[test]
fn commands_that_leave_work_outside() {
    let mut e = Editor::new();
    apply(&mut e, "add_node New number");
    assert!(matches!(apply(&mut e, "del_node 1"), Reaction::Remove { node_id: 1 }));
    assert!(matches!(apply(&mut e, "del_node x"), Reaction::Continue));
    match apply(&mut e, "save out") {
        Reaction::Save { path } => assert_eq!(path, "out.ane"),
        other => panic!("unexpected reaction {:?}", other),
    }
    match apply(&mut e, "load out") {
        Reaction::Load { path } => assert_eq!(path, "out.ane"),
        other => panic!("unexpected reaction {:?}", other),
    }
    assert!(matches!(apply(&mut e, "q"), Reaction::Quit));
    assert!(matches!(apply(&mut e, "hello"), Reaction::Unknown));
    assert!(matches!(apply(&mut e, "pos 1 2"), Reaction::Continue));
    assert_eq!(e.node_ids(), vec![1]);
}

#[test]
fn autosave_commands_switch_saving() {
    let mut e = Editor::new();
    apply(&mut e, "autosave on");
    assert!(e.auto_save());
    apply(&mut e, "autosave off");
    assert!(!e.auto_save());
}
