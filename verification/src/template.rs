//! The kinds of node the editor offers, and the nodes they make.
use vstd::prelude::*;

use crate::command::same_text;
use crate::editor::{InputView, Node, NodeView, OutputView};
use crate::value::{color_of, MyDataType, MyValueType, ValueView};

verus! {

broadcast use vstd::string::group_string_axioms;

/// A kind of node.
#[derive(Debug, Clone, Copy, PartialEq, Eq, Structural)]
pub enum MyNodeTemplate {
    NewNumber,
    RepeatString,
}

/// The title under which a kind of node is offered.
pub open spec fn template_title(t: MyNodeTemplate) -> Seq<char> {
    match t {
        MyNodeTemplate::NewNumber => "New number"@,
        MyNodeTemplate::RepeatString => "Repeat string"@,
    }
}

/// The kind of node offered under a title, if any.
pub open spec fn template_named(title: Seq<char>) -> Option<MyNodeTemplate> {
    if title == "New number"@ {
        Some(MyNodeTemplate::NewNumber)
    } else if title == "Repeat string"@ {
        Some(MyNodeTemplate::RepeatString)
    } else {
        None
    }
}

/// An unconnected input socket as a kind of node makes it.
pub open spec fn fresh_input(label: Seq<char>, value: ValueView, t: MyDataType) -> InputView {
    InputView { connected: 0, data_type: t, rgb: color_of(t), label: label, value: value }
}

/// The node a kind of node makes: a new-number node has one integer input socket named
/// "number" and an integer output; a repeat-string node has a text socket named "string" and
/// an integer socket named "number", and a text output. Sockets start at 0 and the empty text.
pub open spec fn template_node(t: MyNodeTemplate) -> NodeView {
    let out_type = match t {
        MyNodeTemplate::NewNumber => MyDataType::Isize,
        MyNodeTemplate::RepeatString => MyDataType::String,
    };
    NodeView {
        id: 0,
        title: template_title(t),
        kind: t,
        inputs: match t {
            MyNodeTemplate::NewNumber => seq![fresh_input("number"@, ValueView::Isize(0), MyDataType::Isize)],
            MyNodeTemplate::RepeatString => seq![
                fresh_input("string"@, ValueView::Text(Seq::empty()), MyDataType::String),
                fresh_input("number"@, ValueView::Isize(0), MyDataType::Isize),
            ],
        },
        output: OutputView { targets: Seq::empty(), data_type: out_type, rgb: color_of(out_type) },
        x: 0,
        y: 0,
        w: 0,
    }
}

impl MyNodeTemplate {
    /// Makes a node of this kind.
    pub fn new(self) -> (node: Node)
        ensures
            node@ == template_node(self),
            node@.is_detached(),
    {
        let mut node: Node;
        match self {
            MyNodeTemplate::NewNumber => {
                node = Node::new(self, "New number", MyDataType::Isize);
                node.add_input("number", MyValueType::Isize { value: 0 });
            },
            MyNodeTemplate::RepeatString => {
                node = Node::new(self, "Repeat string", MyDataType::String);
                node.add_input("string", MyValueType::String { value: String::new() });
                node.add_input("number", MyValueType::Isize { value: 0 });
            },
        };
        proof {
            assert(node@.inputs =~= template_node(self).inputs);
            assert(node@.output.targets =~= Seq::<usize>::empty());
        }
        node
    }

    /// The kind of node offered under `node_title`, if any.
    pub fn get_node_by_title(node_title: &str) -> (found: Option<MyNodeTemplate>)
        ensures
            found == template_named(node_title@),
    {
        if same_text(node_title, "New number") {
            Some(MyNodeTemplate::NewNumber)
        } else if same_text(node_title, "Repeat string") {
            Some(MyNodeTemplate::RepeatString)
        } else {
            None
        }
    }

    /// The titles under which kinds of node are offered.
    pub fn get_node_titles() -> (titles: Vec<String>)
        ensures
            titles@.map_values(|s: String| s@) == seq![
                template_title(MyNodeTemplate::NewNumber),
                template_title(MyNodeTemplate::RepeatString),
            ],
    {
        let mut titles: Vec<String> = Vec::new();
        titles.push("New number".to_string());
        titles.push("Repeat string".to_string());
        proof {
            assert(titles@.map_values(|s: String| s@) =~= seq![
                template_title(MyNodeTemplate::NewNumber),
                template_title(MyNodeTemplate::RepeatString),
            ]);
        }
        titles
    }
}

/// Each kind of node is offered under the title of the nodes it makes, and the titles name
/// different kinds.
pub proof fn law_title_names_its_template(t: MyNodeTemplate)
    ensures
        template_named(template_title(t)) == Some(t),
        template_node(t).title == template_title(t),
{
    reveal_strlit("New number");
    reveal_strlit("Repeat string");
    assert("New number"@[0] != "Repeat string"@[0]);
}

} // verus!
