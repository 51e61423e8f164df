//! Data types across the graph: what the type check made before connecting promises.
use vstd::prelude::*;

use crate::command::{command_allowed, state_after, CommandView};
use crate::editor::{
    after_connect, after_remove_connection, clear_links, connected_graph, connection_allowed, cut_by,
    disconnected_graph, drop_target, eval_input, eval_node, link_ids, push_target, repeat_result,
    set_link, toggled_graph, types_match, unlisted_by, EditorView, Graph, InputView,
};
use crate::template::{template_named, template_node, MyNodeTemplate};
use crate::value::{law_parse_keeps_type, parsed_value, type_of, MyDataType, ValueView};

verus! {

/// The data type of the values a kind of node makes.
pub open spec fn kind_type(t: MyNodeTemplate) -> MyDataType {
    match t {
        MyNodeTemplate::NewNumber => MyDataType::Isize,
        MyNodeTemplate::RepeatString => MyDataType::String,
    }
}

/// Data types agree across the graph: each socket holds a value of its own data type, each
/// node's output carries the data type its kind makes, and each connected socket is fed by a
/// node whose output carries the socket's data type.
pub open spec fn types_agree(g: Graph) -> bool {
    &&& forall|k: usize, i: int|
        g.contains_key(k) && 0 <= i < g[k].inputs.len() ==> type_of((#[trigger] g[k].inputs[i]).value)
            == g[k].inputs[i].data_type
    &&& forall|k: usize| #[trigger] g.contains_key(k) ==> g[k].output.data_type == kind_type(g[k].kind)
    &&& forall|k: usize, i: int|
        g.contains_key(k) && 0 <= i < g[k].inputs.len() && (#[trigger] g[k].inputs[i]).connected != 0
            && g.contains_key(g[k].inputs[i].connected) ==> g[g[k].inputs[i].connected].output.data_type
            == g[k].inputs[i].data_type
}

/// A graph whose nodes are nodes of `g` with the same kinds, output types and socket types,
/// whose socket values keep their types, and whose sockets keep their feeders, are freed, or
/// are fed by a node whose output carries the socket's type, keeps the types in agreement.
proof fn lemma_types_kept(g: Graph, g2: Graph)
    requires
        types_agree(g),
        forall|k: usize| #[trigger] g2.contains_key(k) ==> {
            &&& g.contains_key(k)
            &&& g2[k].kind == g[k].kind
            &&& g2[k].output.data_type == g[k].output.data_type
            &&& g2[k].inputs.len() == g[k].inputs.len()
        },
        forall|k: usize, i: int|
            g2.contains_key(k) && 0 <= i < g2[k].inputs.len() ==> {
                &&& (#[trigger] g2[k].inputs[i]).data_type == g[k].inputs[i].data_type
                &&& type_of(g2[k].inputs[i].value) == type_of(g[k].inputs[i].value)
                &&& g2[k].inputs[i].connected == g[k].inputs[i].connected || g2[k].inputs[i].connected == 0
                    || (g.contains_key(g2[k].inputs[i].connected)
                    && g[g2[k].inputs[i].connected].output.data_type == g2[k].inputs[i].data_type)
            },
    ensures
        types_agree(g2),
{
    assert forall|k: usize, i: int|
        g2.contains_key(k) && 0 <= i < g2[k].inputs.len() && (#[trigger] g2[k].inputs[i]).connected != 0
            && g2.contains_key(g2[k].inputs[i].connected) implies g2[g2[k].inputs[i].connected].output.data_type
        == g2[k].inputs[i].data_type by {
        let c = g2[k].inputs[i].connected;
        assert(g2.contains_key(c));
        assert(g.contains_key(k));
        if c == g[k].inputs[i].connected {
            assert(g[k].inputs[i].connected != 0);
        }
    }
}

/// Freeing sockets changes nothing else in them.
proof fn lemma_clear_links_shape(s: Seq<InputView>, n: usize, count: nat)
    ensures
        clear_links(s, n, count).len() == s.len(),
        forall|i: int|
            0 <= i < s.len() ==> #[trigger] clear_links(s, n, count)[i] == s[i] || clear_links(s, n, count)[i]
                == (InputView { connected: 0, ..s[i] }),
    decreases s.len(),
{
    if s.len() > 0 {
        let c1 = if count > 0 && s[0].connected == n {
            (count - 1) as nat
        } else {
            count
        };
        lemma_clear_links_shape(s.skip(1), n, c1);
        let r = clear_links(s, n, count);
        assert forall|i: int| 0 <= i < s.len() implies #[trigger] r[i] == s[i] || r[i] == (InputView {
            connected: 0,
            ..s[i]
        }) by {
            if i > 0 {
                assert(r[i] == clear_links(s.skip(1), n, c1)[i - 1]);
                assert(s.skip(1)[i - 1] == s[i]);
            }
        }
    }
}

/// Connecting passes the type check, so connecting keeps the types in agreement.
proof fn lemma_connect_keeps_types(g: Graph, from: usize, to: usize, i: int)
    requires
        types_agree(g),
        g.contains_key(from),
        g.contains_key(to),
        0 <= i < g[to].inputs.len(),
        types_match(g, from, to, i),
    ensures
        types_agree(connected_graph(g, from, to, i)),
{
    let g1 = set_link(g, to, i, from);
    let g2 = push_target(g1, from, to);
    assert forall|k: usize, j: int|
        g2.contains_key(k) && 0 <= j < g2[k].inputs.len() implies #[trigger] g2[k].inputs[j] == if k == to
        && j == i {
        InputView { connected: from, ..g[k].inputs[j] }
    } else {
        g[k].inputs[j]
    } by {}
    lemma_types_kept(g, g2);
}

/// Each connected socket whose feeder is in the graph is fed by a node whose output carries
/// the socket's data type.
pub open spec fn links_typed(g: Graph) -> bool {
    forall|k: usize, i: int|
        g.contains_key(k) && 0 <= i < g[k].inputs.len() && (#[trigger] g[k].inputs[i]).connected != 0
            && g.contains_key(g[k].inputs[i].connected) ==> g[g[k].inputs[i].connected].output.data_type
            == g[k].inputs[i].data_type
}

/// `connect_nodes` keeps every connected socket fed by a node of its own data type, whatever
/// else holds of the graph: it connects only when the types match.
pub proof fn law_connect_keeps_links_typed(g: Graph, from: usize, to: usize, input_index: int)
    requires
        links_typed(g),
        g.contains_key(from),
        g.contains_key(to),
        0 <= input_index < g[to].inputs.len(),
    ensures
        links_typed(after_connect(g, from, to, input_index)),
{
    let g2 = after_connect(g, from, to, input_index);
    if connection_allowed(g, from, to, input_index) {
        assert(g2 == connected_graph(g, from, to, input_index));
        assert(g2.dom() =~= g.dom());
        assert forall|k: usize| g2.contains_key(k) implies #[trigger] g2[k].output.data_type
            == g[k].output.data_type && g2[k].inputs == if k == to {
            g[to].inputs.update(input_index, InputView { connected: from, ..g[to].inputs[input_index] })
        } else {
            g[k].inputs
        } by {}
        assert forall|k: usize, i: int|
            g2.contains_key(k) && 0 <= i < g2[k].inputs.len() && (#[trigger] g2[k].inputs[i]).connected != 0
                && g2.contains_key(g2[k].inputs[i].connected) implies g2[g2[k].inputs[i].connected].output.data_type
            == g2[k].inputs[i].data_type by {
            if !(k == to && i == input_index) {
                assert(g2[k].inputs[i] == g[k].inputs[i]);
            }
        }
    }
}

/// Freeing a socket and dropping a listing keeps the types in agreement.
proof fn lemma_remove_connection_keeps_types(g: Graph, to: usize, i: int)
    requires
        types_agree(g),
        g.contains_key(to),
        0 <= i < g[to].inputs.len(),
        g[to].inputs[i].connected != 0 ==> g.contains_key(g[to].inputs[i].connected),
    ensures
        types_agree(after_remove_connection(g, to, i)),
{
    let g2 = after_remove_connection(g, to, i);
    let feeder = g[to].inputs[i].connected;
    if feeder != 0 {
        assert(g2 == drop_target(set_link(g, to, i, 0), feeder, to));
    }
    assert forall|k: usize, j: int|
        g2.contains_key(k) && 0 <= j < g2[k].inputs.len() implies #[trigger] g2[k].inputs[j] == if k == to
        && j == i {
        InputView { connected: 0, ..g[k].inputs[j] }
    } else {
        g[k].inputs[j]
    } by {}
    lemma_types_kept(g, g2);
}

/// Every command the editor carries out keeps the data types in agreement.
pub proof fn law_commands_keep_types(e: EditorView, c: CommandView)
    requires
        e.wf(),
        types_agree(e.nodes),
        command_allowed(e, c),
    ensures
        types_agree(state_after(e, c).nodes),
{
    let g = e.nodes;
    match c {
        CommandView::Pos(id, x, y) => {
            lemma_types_kept(g, state_after(e, c).nodes);
        },
        CommandView::SetVal(id, index, text) => {
            let g2 = state_after(e, c).nodes;
            let old_value = g[id].inputs[index as int].value;
            law_parse_keeps_type(old_value, text);
            assert forall|k: usize, j: int|
                g2.contains_key(k) && 0 <= j < g2[k].inputs.len() implies #[trigger] g2[k].inputs[j] == if k
                == id && j == index {
                InputView { value: parsed_value(old_value, text), ..g[k].inputs[j] }
            } else {
                g[k].inputs[j]
            } by {}
            lemma_types_kept(g, g2);
        },
        CommandView::Con(from, to, index) => {
            let i = index as int;
            let current = g[to].inputs[i].connected;
            if current == 0 {
                if connection_allowed(g, from, to, i) {
                    lemma_connect_keeps_types(g, from, to, i);
                }
            } else if current == from {
                lemma_remove_connection_keeps_types(g, to, i);
            } else {
                lemma_remove_connection_keeps_types(g, to, i);
                let g1 = after_remove_connection(g, to, i);
                assert(g1.dom() =~= g.dom());
                if connection_allowed(g1, from, to, i) {
                    lemma_connect_keeps_types(g1, from, to, i);
                }
                assert(state_after(e, c).nodes == after_connect(g1, from, to, i));
            }
        },
        CommandView::AddNode(title) => {
            if let Some(t) = template_named(title) {
                let k = (e.current_id + 1) as usize;
                let g2 = state_after(e, c).nodes;
                let v = g2[k];
                assert(v.inputs == template_node(t).inputs);
                assert forall|m: usize, j: int|
                    g2.contains_key(m) && 0 <= j < g2[m].inputs.len() implies type_of(
                    (#[trigger] g2[m].inputs[j]).value,
                ) == g2[m].inputs[j].data_type by {
                    if m != k {
                        assert(g2[m] == g[m]);
                    }
                }
                assert forall|m: usize| #[trigger] g2.contains_key(m) implies g2[m].output.data_type
                    == kind_type(g2[m].kind) by {
                    if m != k {
                        assert(g2[m] == g[m]);
                    }
                }
                assert forall|m: usize, j: int|
                    g2.contains_key(m) && 0 <= j < g2[m].inputs.len() && (#[trigger] g2[m].inputs[j]).connected
                        != 0 && g2.contains_key(g2[m].inputs[j].connected) implies g2[g2[m].inputs[j].connected].output.data_type
                    == g2[m].inputs[j].data_type by {
                    if m != k {
                        assert(g2[m] == g[m]);
                        assert(g.contains_key(g[m].inputs[j].connected));
                        assert(g[m].inputs[j].connected != k);
                    }
                }
            }
        },
        _ => {},
    }
}

/// Removing a node keeps the data types in agreement.
pub proof fn law_removal_keeps_types(g: Graph, node_id: usize)
    requires
        types_agree(g),
        g.contains_key(node_id),
    ensures
        types_agree(disconnected_graph(g, node_id).remove(node_id)),
{
    let g1 = unlisted_by(g, node_id, link_ids(g[node_id]));
    let g2 = cut_by(g1, node_id, g1[node_id].output.targets);
    let g3 = g2.remove(node_id);
    assert(g3 == disconnected_graph(g, node_id).remove(node_id));
    assert forall|k: usize| #[trigger] g3.contains_key(k) implies g3[k].inputs == clear_links(
        g[k].inputs,
        node_id,
        crate::editor::occurrences(g1[node_id].output.targets, k),
    ) && g3[k].kind == g[k].kind && g3[k].output.data_type == g[k].output.data_type by {}
    assert forall|k: usize, j: int|
        g3.contains_key(k) && 0 <= j < g3[k].inputs.len() implies #[trigger] g3[k].inputs[j] == g[k].inputs[j]
        || g3[k].inputs[j] == (InputView { connected: 0, ..g[k].inputs[j] }) by {
        lemma_clear_links_shape(g[k].inputs, node_id, crate::editor::occurrences(g1[node_id].output.targets, k));
    }
    assert forall|k: usize| #[trigger] g3.contains_key(k) implies g3[k].inputs.len() == g[k].inputs.len() by {
        lemma_clear_links_shape(g[k].inputs, node_id, crate::editor::occurrences(g1[node_id].output.targets, k));
    }
    lemma_types_kept(g, g3);
}

/// When the data types agree, a node's value has its output's data type, and every socket is
/// supplied a value of its own data type: the type check made before connecting means that no
/// evaluation reads an integer from a text or a text from an integer.
pub proof fn law_values_have_their_type(g: Graph, cache: Map<usize, ValueView>, id: usize, fuel: nat)
    requires
        types_agree(g),
        cache == Map::<usize, ValueView>::empty(),
    ensures
        eval_node(g, cache, id, fuel) is Some ==> type_of(eval_node(g, cache, id, fuel).unwrap())
            == g[id].output.data_type,
        g.contains_key(id) ==> forall|i: int|
            0 <= i < g[id].inputs.len() && (#[trigger] eval_input(g, cache, g[id].inputs[i], fuel)) is Some
                ==> type_of(eval_input(g, cache, g[id].inputs[i], fuel).unwrap()) == g[id].inputs[i].data_type,
{
    if let Some(v) = eval_node(g, cache, id, fuel) {
        assert(g.contains_key(id));
        match g[id].kind {
            MyNodeTemplate::NewNumber => {},
            MyNodeTemplate::RepeatString => {
                let a = eval_input(g, cache, g[id].inputs[0], (fuel - 1) as nat).unwrap();
                let b = eval_input(g, cache, g[id].inputs[1], (fuel - 1) as nat).unwrap();
                assert(Some(v) == repeat_result(crate::value::as_text(a), crate::value::as_isize(b)));
            },
        }
    }
    if g.contains_key(id) {
        assert forall|i: int|
            0 <= i < g[id].inputs.len() && (#[trigger] eval_input(g, cache, g[id].inputs[i], fuel)) is Some implies type_of(
            eval_input(g, cache, g[id].inputs[i], fuel).unwrap(),
        ) == g[id].inputs[i].data_type by {
            let input = g[id].inputs[i];
            if input.connected != 0 {
                let c = input.connected;
                if let Some(v) = eval_node(g, cache, c, fuel) {
                    assert(g.contains_key(c));
                    match g[c].kind {
                        MyNodeTemplate::NewNumber => {},
                        MyNodeTemplate::RepeatString => {
                            let a = eval_input(g, cache, g[c].inputs[0], (fuel - 1) as nat).unwrap();
                            let b = eval_input(g, cache, g[c].inputs[1], (fuel - 1) as nat).unwrap();
                            assert(Some(v) == repeat_result(crate::value::as_text(a), crate::value::as_isize(b)));
                        },
                    }
                }
            }
        }
    }
}

} // verus!
