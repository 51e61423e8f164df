use node_editor::template::MyNodeTemplate;
use node_editor::value::{MyDataType, MyValueType};

fn integer_in(v: &MyValueType) -> isize {
    match v {
        MyValueType::Isize { value } => *value,
        MyValueType::String { .. } => panic!("expected an integer value"),
    }
}

fn text_in(v: &MyValueType) -> String {
    match v {
        MyValueType::String { value } => value.clone(),
        MyValueType::Isize { .. } => panic!("expected a text value"),
    }
}

#[test]
fn colors_of_data_types() {
    assert_eq!(MyDataType::Isize.get_color(), [68, 139, 211]);
    assert_eq!(MyDataType::String.get_color(), [38, 209, 111]);
}

#[test]
fn try_to_isize_takes_the_integer_or_zero() {
    assert_eq!(MyValueType::Isize { value: -42 }.try_to_isize(), -42);
    assert_eq!(MyValueType::String { value: "7".to_string() }.try_to_isize(), 0);
}

#[test]
fn try_to_string_takes_the_text_or_empty() {
    assert_eq!(MyValueType::String { value: "abc".to_string() }.try_to_String(), "abc");
    assert_eq!(MyValueType::Isize { value: 5 }.try_to_String(), "");
}

#[test]
fn parse_value_reads_integers() {
    let v = MyValueType::Isize { value: 1 };
    assert_eq!(integer_in(&v.parse_value("42")), 42);
    assert_eq!(integer_in(&v.parse_value("-17")), -17);
    assert_eq!(integer_in(&v.parse_value("+5")), 5);
    assert_eq!(integer_in(&v.parse_value("007")), 7);
}

#[test]
fn parse_value_reads_bad_integers_as_zero() {
    let v = MyValueType::Isize { value: 9 };
    assert_eq!(integer_in(&v.parse_value("abc")), 0);
    assert_eq!(integer_in(&v.parse_value("")), 0);
    assert_eq!(integer_in(&v.parse_value("-")), 0);
    assert_eq!(integer_in(&v.parse_value("1 2")), 0);
    assert_eq!(integer_in(&v.parse_value("99999999999999999999999")), 0);
}

#[test]
fn parse_value_replaces_escape_sequences() {
    let v = MyValueType::String { value: String::new() };
    assert_eq!(text_in(&v.parse_value("a\\nb")), "a\nb");
    assert_eq!(text_in(&v.parse_value("\\t\\r\\0")), "\t\r\0");
    assert_eq!(text_in(&v.parse_value("\\\\")), "\\");
    assert_eq!(text_in(&v.parse_value("plain")), "plain");
}

#[test]
fn parse_value_keeps_unknown_escapes_twice_and_trailing_backslash() {
    let v = MyValueType::String { value: String::new() };
    assert_eq!(text_in(&v.parse_value("\\a")), "aa");
    assert_eq!(text_in(&v.parse_value("x\\")), "x\\");
}

#[test]
fn parse_value_keeps_the_data_type() {
    let i = MyValueType::Isize { value: 3 };
    let s = MyValueType::String { value: "x".to_string() };
    assert_eq!(i.parse_value("text").get_data_type(), MyDataType::Isize);
    assert_eq!(s.parse_value("12").get_data_type(), MyDataType::String);
    assert_eq!(text_in(&s.parse_value("12")), "12");
}

#[test]
fn data_type_of_values() {
    assert_eq!(MyValueType::Isize { value: 0 }.get_data_type(), MyDataType::Isize);
    assert_eq!(MyValueType::String { value: String::new() }.get_data_type(), MyDataType::String);
}

#[test]
fn print_text_of_values() {
    assert_eq!(MyValueType::Isize { value: -120 }.get_print_text(), "-120");
    assert_eq!(MyValueType::Isize { value: 0 }.get_print_text(), "0");
    assert_eq!(MyValueType::Isize { value: isize::MIN }.get_print_text(), isize::MIN.to_string());
    assert_eq!(MyValueType::String { value: "hi\nthere".to_string() }.get_print_text(), "hi\nthere");
}

#[test]
fn clone_keeps_the_value() {
    let v = MyValueType::String { value: "q".to_string() };
    assert_eq!(text_in(&v.clone()), "q");
    assert_eq!(integer_in(&MyValueType::Isize { value: 8 }.clone()), 8);
}

#[test]
fn templates_by_title() {
    assert_eq!(MyNodeTemplate::get_node_by_title("New number"), Some(MyNodeTemplate::NewNumber));
    assert_eq!(MyNodeTemplate::get_node_by_title("Repeat string"), Some(MyNodeTemplate::RepeatString));
    assert_eq!(MyNodeTemplate::get_node_by_title("new number"), None);
    assert_eq!(MyNodeTemplate::get_node_by_title("New number "), None);
    assert_eq!(MyNodeTemplate::get_node_by_title(""), None);
}

#[test]
fn template_titles_name_their_templates() {
    let titles = MyNodeTemplate::get_node_titles();
    assert_eq!(titles, vec!["New number".to_string(), "Repeat string".to_string()]);
    for t in [MyNodeTemplate::NewNumber, MyNodeTemplate::RepeatString] {
        let node = t.new();
        assert_eq!(MyNodeTemplate::get_node_by_title(node.get_title()), Some(t));
    }
}

#[test]
fn new_number_template_node() {
    let node = MyNodeTemplate::NewNumber.new();
    assert_eq!(node.get_title(), "New number");
    assert_eq!(node.get_node_type(), MyNodeTemplate::NewNumber);
    assert_eq!(node.get_id(), 0);
    assert_eq!(node.input_count(), 1);
    assert_eq!(node.get_input(0).get_label(), "number");
    assert_eq!(node.get_input(0).get_input_type(), MyDataType::Isize);
    assert_eq!(node.get_input(0).get_connected_id(), 0);
    assert_eq!(integer_in(&node.get_input(0).value), 0);
    assert_eq!(node.get_output().get_output_type(), MyDataType::Isize);
    assert!(node.get_output().get_connected_ids().is_empty());
}

#[test]
fn repeat_string_template_node() {
    let node = MyNodeTemplate::RepeatString.new();
    assert_eq!(node.get_title(), "Repeat string");
    assert_eq!(node.input_count(), 2);
    assert_eq!(node.get_input(0).get_label(), "string");
    assert_eq!(node.get_input(0).get_input_type(), MyDataType::String);
    assert_eq!(node.get_input(0).get_color(), [38, 209, 111]);
    assert_eq!(text_in(&node.get_input(0).value), "");
    assert_eq!(node.get_input(1).get_label(), "number");
    assert_eq!(node.get_input(1).get_input_type(), MyDataType::Isize);
    assert_eq!(node.get_output().get_output_type(), MyDataType::String);
    assert_eq!(node.get_output().get_color(), [38, 209, 111]);
}

#[test]
fn printing_then_parsing_an_integer_gives_it_back() {
    for v in [0, 7, -7, 120, isize::MAX, isize::MIN] {
        let printed = MyValueType::Isize { value: v }.get_print_text();
        assert_eq!(integer_in(&MyValueType::Isize { value: 3 }.parse_value(&printed)), v);
    }
}

#[test]
fn empty_text_reads_as_the_default_value() {
    assert_eq!(integer_in(&MyValueType::Isize { value: 9 }.parse_value("")), 0);
    assert_eq!(text_in(&MyValueType::String { value: "x".to_string() }.parse_value("")), "");
}
