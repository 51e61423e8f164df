use node_editor::editor::Editor;
use node_editor::layout::{connection_strokes, fitted_rows, node_places, node_text, screen_split, textarea, Glyph, Stroke};
use node_editor::template::MyNodeTemplate;

fn stroke(row: usize, column: usize, glyph: Glyph, count: usize) -> Stroke {
    Stroke { row, column, glyph, count }
}

#[test]
fn textarea_pads_lines_to_the_longest() {
    let area = textarea("ab\ncde\n").unwrap();
    assert_eq!(area.width, 3);
    assert_eq!(area.height, 3);
    assert_eq!(area.rows, vec!["ab ", "cde", "   "]);
}

#[test]
fn textarea_of_empty_lines_is_empty() {
    let area = textarea("").unwrap();
    assert_eq!((area.width, area.height), (0, 0));
    assert!(area.rows.is_empty());
    let area = textarea("\n\n").unwrap();
    assert_eq!((area.width, area.height), (0, 0));
    assert!(area.rows.is_empty());
}

#[test]
fn fitted_rows_cut_long_lines_with_a_hyphen() {
    assert_eq!(fitted_rows("hello\nhi", 3, 5).unwrap(), vec!["he-", "hi "]);
    assert_eq!(fitted_rows("abcd", 4, 1).unwrap(), vec!["abcd"]);
    assert_eq!(fitted_rows("abcde", 1, 1).unwrap(), vec!["-"]);
}

#[test]
fn fitted_rows_keep_at_most_h_lines() {
    assert_eq!(fitted_rows("a\nb\nc", 2, 2).unwrap(), vec!["a ", "b "]);
    assert_eq!(fitted_rows("a\nb", 1, 0), Some(Vec::<String>::new()));
}

#[test]
fn fitted_rows_of_empty_lines_are_none() {
    assert_eq!(fitted_rows("", 5, 3), Some(Vec::<String>::new()));
    assert_eq!(fitted_rows("\n", 5, 3), Some(Vec::<String>::new()));
}

#[test]
fn node_text_lists_title_inputs_and_id() {
    let mut e = Editor::new();
    for _ in 0..11 {
        e.add_node(MyNodeTemplate::NewNumber.new());
    }
    e.add_node(MyNodeTemplate::RepeatString.new());
    let node = e.get_node(12).unwrap();
    assert_eq!(
        node_text(node, 5),
        " [Repeat string] \n string       \n number       \n (id: 12)"
    );
    let node = e.get_node(1).unwrap();
    assert_eq!(node_text(node, 0), " [New number] \n number  \n (id: 1)");
}

#[test]
fn connection_going_down() {
    let strokes = connection_strokes(2, 2, 10, 20, 3, 1).unwrap();
    assert_eq!(
        strokes,
        vec![
            stroke(5, 15, Glyph::Vertical, 1),
            stroke(4, 15, Glyph::TopRight, 1),
            stroke(6, 15, Glyph::BottomLeft, 1),
            stroke(4, 11, Glyph::Horizontal, 4),
            stroke(6, 16, Glyph::Horizontal, 4),
        ]
    );
}

#[test]
fn connection_going_up() {
    let strokes = connection_strokes(2, 10, 10, 21, 3, 0).unwrap();
    assert_eq!(
        strokes,
        vec![
            stroke(6, 16, Glyph::Vertical, 1),
            stroke(7, 16, Glyph::Vertical, 1),
            stroke(8, 16, Glyph::Vertical, 1),
            stroke(9, 16, Glyph::Vertical, 1),
            stroke(10, 16, Glyph::Vertical, 1),
            stroke(11, 16, Glyph::Vertical, 1),
            stroke(12, 16, Glyph::BottomRight, 1),
            stroke(5, 16, Glyph::TopLeft, 1),
            stroke(12, 11, Glyph::Horizontal, 5),
            stroke(5, 17, Glyph::Horizontal, 4),
        ]
    );
}

#[test]
fn connection_on_one_row() {
    let strokes = connection_strokes(0, 5, 4, 9, 5, 0).unwrap();
    assert_eq!(
        strokes,
        vec![
            stroke(7, 6, Glyph::Horizontal, 1),
            stroke(7, 3, Glyph::Horizontal, 3),
            stroke(7, 7, Glyph::Horizontal, 2),
        ]
    );
}

#[test]
fn connection_from_the_right_swaps_the_ends() {
    let strokes = connection_strokes(30, 2, 10, 5, 2, 0).unwrap();
    assert_eq!(
        strokes,
        vec![
            stroke(4, 23, Glyph::Horizontal, 1),
            stroke(4, 6, Glyph::Horizontal, 17),
            stroke(4, 24, Glyph::Horizontal, 16),
        ]
    );
}

#[test]
fn connection_route_follows_the_socket() {
    let mut e = Editor::new();
    e.add_node(MyNodeTemplate::NewNumber.new());
    e.add_node(MyNodeTemplate::RepeatString.new());
    e.set_position(1, 2, 2);
    e.set_position(2, 20, 3);
    e.connect_nodes(1, 2, 1);
    assert_eq!(e.connection_route(10, 2, 1), connection_strokes(2, 2, 10, 20, 3, 1));
    assert!(e.connection_route(10, 2, 1).is_some());
}

#[test]
fn textarea_refuses_lines_with_more_bytes_than_room() {
    assert!(textarea("\u{e9}").is_none());
    assert!(textarea("\u{e9}ab\nxyz").is_none());
    assert_eq!(textarea("\u{e9}a\nxyz").unwrap().rows, vec!["\u{e9}a", "xyz"]);
}

#[test]
fn fitted_rows_refuse_lines_that_cannot_be_fitted() {
    assert_eq!(fitted_rows("abc", 0, 1), None);
    assert_eq!(fitted_rows("\u{e9}", 1, 1), None);
    assert_eq!(fitted_rows("ok\n\u{e9}\u{e9}", 2, 1).unwrap(), vec!["ok".to_string()]);
}

#[test]
fn connection_strokes_refuse_degenerate_lines() {
    assert_eq!(connection_strokes(5, 0, 1, 5, 0, 0), None);
    assert_eq!(connection_strokes(0, 0, 0, 5, 0, 0), None);
    assert_eq!(connection_strokes(usize::MAX, 0, 1, 5, 0, 0), None);
    assert_eq!(connection_strokes(1, usize::MAX - 1, 3, 5, 0, 0), None);
    assert_eq!(connection_strokes(1, 0, 3, 5, usize::MAX - 2, 1), None);
}

#[test]
fn screen_split_gives_a_fifth_to_the_output() {
    assert_eq!(screen_split(22), Some((15, 4)));
    assert_eq!(screen_split(3), Some((0, 0)));
    assert_eq!(screen_split(2), None);
    assert_eq!(screen_split(0), None);
}

#[test]
fn node_places_put_values_sockets_and_output() {
    let places = node_places(2, 3, 12, 5, 2).unwrap();
    assert_eq!(places.value_column, Some(9));
    assert_eq!(places.output_column, 15);
    assert_eq!(places.output_row, 5);
    assert_eq!(places.socket_rows, vec![5, 6]);
    assert_eq!(node_places(0, 0, 3, 5, 1).unwrap().value_column, None);
    assert!(node_places(usize::MAX, 0, 0, 5, 1).is_none());
    assert!(node_places(0, usize::MAX - 2, 4, 5, 1).is_none());
}
