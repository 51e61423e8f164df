//! Sockets, nodes and the editor that holds them: a graph in which each input socket is
//! connected to at most one node, and each node records the nodes its output feeds.
use std::collections::HashMap;
use vstd::prelude::*;

use crate::template::MyNodeTemplate;
use crate::template::{template_named, template_node};
use crate::value::{
    as_isize, as_text, color_of, lemma_repeat_empty, parsed_value, print_text, repeat_limit,
    repeat_str, repeat_text, type_of, MyDataType, MyValueType, ValueView,
};

verus! {

broadcast use vstd::std_specs::hash::group_hash_axioms, vstd::string::group_string_axioms;

/// An input socket of a node. `connected_id` is the id of the node whose output feeds it,
/// or 0 when it is not connected; `value` is used when it is not connected.
pub struct Input {
    connected_id: usize,
    input_type: MyDataType,
    color: [u8; 3],
    label: String,
    pub value: MyValueType,
}

/// The output socket of a node, with the ids of the nodes it was connected to.
pub struct Output {
    connected_ids: Vec<usize>,
    output_type: MyDataType,
    color: [u8; 3],
}

/// A node: a titled box with input sockets, one output socket and a position.
pub struct Node {
    id: usize,
    title: String,
    node_type: MyNodeTemplate,
    pub inputs: Vec<Input>,
    output: Output,
    pub x: usize,
    pub y: usize,
    pub w: usize,
}

/// What an input socket holds.
pub struct InputView {
    pub connected: usize,
    pub data_type: MyDataType,
    pub rgb: Seq<u8>,
    pub label: Seq<char>,
    pub value: ValueView,
}

/// What an output socket holds.
pub struct OutputView {
    pub targets: Seq<usize>,
    pub data_type: MyDataType,
    pub rgb: Seq<u8>,
}

/// What a node holds.
pub struct NodeView {
    pub id: usize,
    pub title: Seq<char>,
    pub kind: MyNodeTemplate,
    pub inputs: Seq<InputView>,
    pub output: OutputView,
    pub x: usize,
    pub y: usize,
    pub w: usize,
}

impl View for Input {
    type V = InputView;

    closed spec fn view(&self) -> InputView {
        InputView {
            connected: self.connected_id,
            data_type: self.input_type,
            rgb: self.color@,
            label: self.label@,
            value: self.value@,
        }
    }
}

impl View for Output {
    type V = OutputView;

    closed spec fn view(&self) -> OutputView {
        OutputView { targets: self.connected_ids@, data_type: self.output_type, rgb: self.color@ }
    }
}

/// The views of a sequence of input sockets.
pub open spec fn input_views(s: Seq<Input>) -> Seq<InputView> {
    s.map_values(|i: Input| i@)
}

impl View for Node {
    type V = NodeView;

    closed spec fn view(&self) -> NodeView {
        NodeView {
            id: self.id,
            title: self.title@,
            kind: self.node_type,
            inputs: input_views(self.inputs@),
            output: self.output@,
            x: self.x,
            y: self.y,
            w: self.w,
        }
    }
}

impl NodeView {
    /// No input socket is connected and the output feeds no node: a node as made, before it
    /// is added to an editor.
    pub open spec fn is_detached(self) -> bool {
        &&& forall|i: int| 0 <= i < self.inputs.len() ==> (#[trigger] self.inputs[i]).connected == 0
        &&& self.output.targets.len() == 0
    }
}

impl Input {
    /// The value an unconnected socket holds.
    pub closed spec fn held(self) -> MyValueType {
        self.value
    }

    /// An unconnected input socket named `label` that holds `value`; its data type and colour
    /// are those of the value.
    pub fn new(label: &str, value: MyValueType) -> (input: Self)
        ensures
            input@ == (InputView {
                connected: 0,
                data_type: type_of(value@),
                rgb: color_of(type_of(value@)),
                label: label@,
                value: value@,
            }),
            input.held() == value,
    {
        let input_type = value.get_data_type();
        Self {
            connected_id: 0,
            input_type: input_type,
            color: input_type.get_color(),
            label: label.to_string(),
            value: value,
        }
    }
}

impl Output {
    /// An output socket of the given data type, connected to nothing.
    pub fn new(output_type: MyDataType) -> (output: Self)
        ensures
            output@ == (OutputView {
                targets: Seq::empty(),
                data_type: output_type,
                rgb: color_of(output_type),
            }),
    {
        let output = Self {
            connected_ids: Vec::new(),
            output_type: output_type,
            color: output_type.get_color(),
        };
        assert(output@.targets =~= Seq::<usize>::empty());
        output
    }
}

impl Node {
    /// A node of the given kind and title, with no input sockets, an output of the given data
    /// type, id 0 and position and width 0.
    pub fn new(node_type: MyNodeTemplate, title: &str, output_type: MyDataType) -> (node: Self)
        ensures
            node@ == (NodeView {
                id: 0,
                title: title@,
                kind: node_type,
                inputs: Seq::empty(),
                output: OutputView {
                    targets: Seq::empty(),
                    data_type: output_type,
                    rgb: color_of(output_type),
                },
                x: 0,
                y: 0,
                w: 0,
            }),
            node@.is_detached(),
    {
        let node = Self {
            id: 0,
            title: title.to_string(),
            node_type: node_type,
            inputs: Vec::new(),
            output: Output::new(output_type),
            x: 0,
            y: 0,
            w: 0,
        };
        assert(node@.inputs =~= Seq::<InputView>::empty());
        node
    }

    /// Appends an unconnected input socket named `label` holding `defaul`.
    pub fn add_input(&mut self, label: &str, defaul: MyValueType)
        ensures
            final(self)@ == (NodeView {
                inputs: old(self)@.inputs.push(
                    InputView {
                        connected: 0,
                        data_type: type_of(defaul@),
                        rgb: color_of(type_of(defaul@)),
                        label: label@,
                        value: defaul@,
                    },
                ),
                ..old(self)@
            }),
            old(self)@.is_detached() ==> final(self)@.is_detached(),
    {
        let input = Input::new(label, defaul);
        let ghost iv = input@;
        self.inputs.push(input);
        proof {
            assert(input_views(self.inputs@) =~= input_views(old(self).inputs@).push(iv));
        }
    }
}

/// The editor: the nodes by id, the values cached for node outputs, the last id given out,
/// whether to save after each change, and the size of the drawing area.
pub struct Editor {
    nodes: HashMap<usize, Node>,
    outputs_cache: HashMap<usize, MyValueType>,
    current_id: usize,
    auto_save: bool,
    w: usize,
    h: usize,
}

/// A graph of nodes by id.
pub type Graph = Map<usize, NodeView>;

/// What an editor holds.
pub struct EditorView {
    pub nodes: Graph,
    pub cache: Map<usize, ValueView>,
    pub current_id: usize,
    pub auto_save: bool,
    pub w: usize,
    pub h: usize,
}

impl View for Editor {
    type V = EditorView;

    closed spec fn view(&self) -> EditorView {
        EditorView {
            nodes: self.nodes@.map_values(|n: Node| n@),
            cache: self.outputs_cache@.map_values(|v: MyValueType| v@),
            current_id: self.current_id,
            auto_save: self.auto_save,
            w: self.w,
            h: self.h,
        }
    }
}

/// Every node id is positive and at most the last id given out.
pub open spec fn ids_bounded(g: Graph, current_id: usize) -> bool {
    forall|k: usize| #[trigger] g.contains_key(k) ==> 0 < k <= current_id
}

/// Every node records its own id.
pub open spec fn ids_recorded(g: Graph) -> bool {
    forall|k: usize| #[trigger] g.contains_key(k) ==> g[k].id == k
}

/// Every connected input socket is fed by a node of the graph.
pub open spec fn links_closed(g: Graph) -> bool {
    forall|k: usize, i: int|
        g.contains_key(k) && 0 <= i < g[k].inputs.len() && (#[trigger] g[k].inputs[i]).connected != 0
            ==> g.contains_key(g[k].inputs[i].connected)
}

/// `rank` grows along every connection: a node feeding an input of another has a smaller rank.
pub open spec fn ranked_by(g: Graph, rank: spec_fn(usize) -> nat) -> bool {
    forall|k: usize, i: int|
        g.contains_key(k) && 0 <= i < g[k].inputs.len() && (#[trigger] g[k].inputs[i]).connected != 0
            ==> rank(g[k].inputs[i].connected) < rank(k)
}

/// The connections form no cycle.
pub open spec fn acyclic(g: Graph) -> bool {
    exists|rank: spec_fn(usize) -> nat| ranked_by(g, rank)
}

/// How many of the input sockets are fed by node `n`.
pub open spec fn links_to(s: Seq<InputView>, n: usize) -> nat
    decreases s.len(),
{
    if s.len() == 0 {
        0
    } else {
        (if s[0].connected == n {
            1nat
        } else {
            0nat
        }) + links_to(s.skip(1), n)
    }
}

/// How many times `x` occurs in `s`.
pub open spec fn occurrences(s: Seq<usize>, x: usize) -> nat
    decreases s.len(),
{
    if s.len() == 0 {
        0
    } else {
        (if s[0] == x {
            1nat
        } else {
            0nat
        }) + occurrences(s.skip(1), x)
    }
}

/// Each node's output lists every node it feeds, once for each input socket it feeds, and no
/// other node of the graph.
pub open spec fn outputs_cover(g: Graph) -> bool {
    forall|n: usize, x: usize|
        g.contains_key(n) && g.contains_key(x) ==> #[trigger] links_to(g[x].inputs, n)
            == occurrences(g[n].output.targets, x)
}

/// Every node listed on an output is a node of the graph.
pub open spec fn targets_closed(g: Graph) -> bool {
    forall|n: usize, j: int|
        g.contains_key(n) && 0 <= j < g[n].output.targets.len() ==> g.contains_key(
            #[trigger] g[n].output.targets[j],
        )
}

impl EditorView {
    /// The state that the editor's operations keep.
    pub open spec fn wf(self) -> bool {
        &&& self.nodes.dom().finite()
        &&& ids_bounded(self.nodes, self.current_id)
        &&& ids_recorded(self.nodes)
        &&& links_closed(self.nodes)
        &&& acyclic(self.nodes)
        &&& outputs_cover(self.nodes)
        &&& targets_closed(self.nodes)
    }
}

/// Node `b` feeds an input socket of node `a`.
pub open spec fn feeds(g: Graph, a: usize, b: usize) -> bool {
    b != 0 && exists|i: int| 0 <= i < g[a].inputs.len() && #[trigger] g[a].inputs[i].connected == b
}

pub open spec fn path_step(g: Graph, p: Seq<usize>, j: int) -> bool {
    g.contains_key(p[j]) && feeds(g, p[j], p[j + 1])
}

/// `p` walks from a node to nodes feeding it, one connection at a time.
pub open spec fn upstream_path(g: Graph, p: Seq<usize>) -> bool {
    p.len() > 0 && forall|j: int| 0 <= j < p.len() - 1 ==> #[trigger] path_step(g, p, j)
}

/// The value of node `a` depends on node `b`: `b` is `a` or feeds it through connections.
pub open spec fn depends_on(g: Graph, a: usize, b: usize) -> bool {
    exists|p: Seq<usize>| #[trigger] upstream_path(g, p) && p[0] == a && p.last() == b
}

/// Every connected socket of a node that `from` depends on is fed by a node of the graph: the
/// part of the graph that the check before connecting `from` may walk.
pub open spec fn upstream_closed(g: Graph, from: usize) -> bool {
    forall|y: usize, i: int|
        depends_on(g, from, y) && g.contains_key(y) && 0 <= i < g[y].inputs.len() && (#[trigger] g[y].inputs[
            i
        ]).connected != 0 ==> g.contains_key(g[y].inputs[i].connected)
}

/// The nodes of the graph that are not in `visited`.
pub open spec fn unvisited(g: Graph, visited: Seq<usize>) -> nat {
    g.dom().difference(visited.to_set()).len()
}

/// The check made before connecting node `from` to node `to`: walking upstream from `from`,
/// with `passed` and `to` as the nodes already passed, no node that has inputs is passed twice.
pub open spec fn loop_free(g: Graph, from: usize, to: usize, passed: Seq<usize>) -> bool
    decreases unvisited(g, passed.push(to)),
    via loop_free_decreases
{
    let p2 = passed.push(to);
    let ins = g[from].inputs;
    ins.len() == 0 || (!p2.contains(from) && g.dom().finite() && g.contains_key(from) && forall|
        i: int,
    |
        0 <= i < ins.len() ==> (#[trigger] ins[i]).connected == 0 || loop_free(
            g,
            ins[i].connected,
            from,
            p2,
        ))
}

#[via_fn]
proof fn loop_free_decreases(g: Graph, from: usize, to: usize, passed: Seq<usize>) {
    let p2 = passed.push(to);
    if !p2.contains(from) && g.dom().finite() && g.contains_key(from) {
        lemma_unvisited_shrinks(g, p2, from);
    }
}

proof fn lemma_unvisited_shrinks(g: Graph, visited: Seq<usize>, x: usize)
    requires
        !visited.contains(x),
        g.dom().finite(),
        g.contains_key(x),
    ensures
        unvisited(g, visited.push(x)) < unvisited(g, visited),
{
    let s = g.dom().difference(visited.to_set());
    assert(visited.push(x).to_set() =~= visited.to_set().insert(x)) by {
        visited.lemma_push_to_set_commute(x);
    }
    assert(g.dom().difference(visited.push(x).to_set()) =~= s.remove(x));
    assert(s.contains(x));
}

/// Whether `v` holds `x`.
fn holds_id(v: &Vec<usize>, x: usize) -> (found: bool)
    ensures
        found == v@.contains(x),
{
    let mut i: usize = 0;
    while i < v.len()
        invariant
            i <= v.len(),
            forall|j: int| 0 <= j < i ==> v@[j] != x,
        decreases v.len() - i,
    {
        if v[i] == x {
            return true;
        }
        i += 1;
    }
    false
}

/// Connecting input `input_index` of node `to` to node `from`.
pub open spec fn set_link(g: Graph, to: usize, input_index: int, from: usize) -> Graph {
    g.insert(
        to,
        NodeView {
            inputs: g[to].inputs.update(input_index, InputView { connected: from, ..g[to].inputs[input_index] }),
            ..g[to]
        },
    )
}

/// Appending `target` to the output list of node `k`.
pub open spec fn push_target(g: Graph, k: usize, target: usize) -> Graph {
    g.insert(
        k,
        NodeView {
            output: OutputView { targets: g[k].output.targets.push(target), ..g[k].output },
            ..g[k]
        },
    )
}

/// The graph after node `from` is connected to input `input_index` of node `to`.
pub open spec fn connected_graph(g: Graph, from: usize, to: usize, input_index: int) -> Graph {
    push_target(set_link(g, to, input_index, from), from, to)
}

/// The output of `from` and input `input_index` of `to` carry the same data type.
pub open spec fn types_match(g: Graph, from: usize, to: usize, input_index: int) -> bool {
    g[from].output.data_type == g[to].inputs[input_index].data_type
}

/// Whether `connect_nodes` connects: the connection closes no loop and the types match.
pub open spec fn connection_allowed(g: Graph, from: usize, to: usize, input_index: int) -> bool {
    loop_free(g, from, to, Seq::empty()) && types_match(g, from, to, input_index)
}

impl Editor {
    proof fn lemma_finite_nodes(&self)
        ensures
            self@.nodes.dom().finite(),
    {
        assert(self@.nodes.dom() =~= self.nodes@.dom());
    }

    /// An empty editor.
    pub fn new() -> (editor: Self)
        ensures
            editor@ == (EditorView {
                nodes: Map::empty(),
                cache: Map::empty(),
                current_id: 0,
                auto_save: false,
                w: 0,
                h: 0,
            }),
            editor@.wf(),
    {
        let editor = Self {
            nodes: HashMap::new(),
            outputs_cache: HashMap::new(),
            current_id: 0,
            auto_save: false,
            w: 0,
            h: 0,
        };
        proof {
            assert(editor@.nodes =~= Map::<usize, NodeView>::empty());
            assert(editor@.cache =~= Map::<usize, ValueView>::empty());
            let rank = |k: usize| 0nat;
            assert(ranked_by(editor@.nodes, rank));
        }
        editor
    }

    pub fn enable_auto_save(&mut self)
        ensures
            final(self)@ == (EditorView { auto_save: true, ..old(self)@ }),
    {
        self.auto_save = true;
    }

    pub fn disable_auto_save(&mut self)
        ensures
            final(self)@ == (EditorView { auto_save: false, ..old(self)@ }),
    {
        self.auto_save = false;
    }

    /// Whether the editor is to be saved after a change.
    pub fn auto_save(&self) -> (due: bool)
        ensures
            due == self@.auto_save,
    {
        self.auto_save
    }

    /// Adds `node` under the next id, which it also records.
    pub fn add_node(&mut self, node: Node)
        requires
            old(self)@.current_id < usize::MAX,
        ensures
            final(self)@ == (EditorView {
                nodes: old(self)@.nodes.insert(
                    (old(self)@.current_id + 1) as usize,
                    NodeView { id: (old(self)@.current_id + 1) as usize, ..node@ },
                ),
                current_id: (old(self)@.current_id + 1) as usize,
                ..old(self)@
            }),
    {
        self.current_id += 1;
        let mut node = node;
        node.id = self.current_id;
        let ghost nv = node@;
        self.nodes.insert(node.id, node);
        proof {
            assert(self@.nodes =~= old(self)@.nodes.insert(self.current_id, nv));
        }
    }

    /// Whether the output of `from_node_id` and input `input_index` of `to_node_id` carry the
    /// same data type.
    fn are_types_matched(&self, from_node_id: usize, to_node_id: usize, input_index: usize) -> (matched: bool)
        requires
            self@.nodes.contains_key(from_node_id),
            self@.nodes.contains_key(to_node_id),
            input_index < self@.nodes[to_node_id].inputs.len(),
        ensures
            matched == types_match(self@.nodes, from_node_id, to_node_id, input_index as int),
    {
        let from_node = self.nodes.get(&from_node_id).unwrap();
        let to_node = self.nodes.get(&to_node_id).unwrap();
        proof {
            assert(to_node@.inputs[input_index as int] == to_node.inputs@[input_index as int]@);
        }
        from_node.output.output_type == to_node.inputs[input_index].input_type
    }

    /// Walks upstream from `from_node_id` to check that connecting it to `to_node_id` closes
    /// no loop; `passed_nodes_ids` are the nodes already passed.
    fn is_safe_from_infinite_loop(
        &self,
        from_node_id: usize,
        to_node_id: usize,
        passed_nodes_ids: &Vec<usize>,
    ) -> (safe: bool)
        requires
            upstream_closed(self@.nodes, from_node_id),
            self@.nodes.contains_key(from_node_id),
        ensures
            safe == loop_free(self@.nodes, from_node_id, to_node_id, passed_nodes_ids@),
        decreases unvisited(self@.nodes, passed_nodes_ids@.push(to_node_id)),
    {
        let ghost g = self@.nodes;
        let from_node = self.nodes.get(&from_node_id).unwrap();
        let mut passed_ids = passed_nodes_ids.clone();
        passed_ids.push(to_node_id);
        proof {
            assert(passed_ids@ =~= passed_nodes_ids@.push(to_node_id));
            assert(from_node@ == g[from_node_id]);
            self.lemma_finite_nodes();
        }
        let n = from_node.inputs.len();
        let mut i: usize = 0;
        while i < n
            invariant
                i <= n,
                n == g[from_node_id].inputs.len(),
                from_node@ == g[from_node_id],
                g == self@.nodes,
                g.contains_key(from_node_id),
                g.dom().finite(),
                upstream_closed(g, from_node_id),
                passed_ids@ == passed_nodes_ids@.push(to_node_id),
                i > 0 ==> !passed_ids@.contains(from_node_id),
                forall|j: int|
                    0 <= j < i ==> (#[trigger] g[from_node_id].inputs[j]).connected == 0 || loop_free(
                        g,
                        g[from_node_id].inputs[j].connected,
                        from_node_id,
                        passed_ids@,
                    ),
            decreases n - i,
        {
            let input = &from_node.inputs[i];
            proof {
                assert(input@ == g[from_node_id].inputs[i as int]);
            }
            if holds_id(&passed_ids, from_node_id) {
                return false;
            }
            if input.connected_id != 0 {
                proof {
                    let c = input.connected_id;
                    crate::laws::lemma_depends_self(g, from_node_id);
                    assert(g.contains_key(c));
                    assert(feeds(g, from_node_id, c));
                    assert forall|y: usize, j: int|
                        depends_on(g, c, y) && g.contains_key(y) && 0 <= j < g[y].inputs.len() && (
                        #[trigger] g[y].inputs[j]).connected != 0 implies g.contains_key(g[y].inputs[j].connected) by {
                        crate::laws::lemma_depends_through(g, from_node_id, c, y);
                    }
                    lemma_unvisited_shrinks(g, passed_ids@, from_node_id);
                }
                if !self.is_safe_from_infinite_loop(input.connected_id, from_node_id, &passed_ids) {
                    return false;
                }
            }
            i += 1;
        }
        true
    }

    /// Sets the connection of input `input_index` of node `to` to `from`.
    fn link_input(&mut self, to: usize, input_index: usize, from: usize)
        requires
            old(self)@.nodes.contains_key(to),
            input_index < old(self)@.nodes[to].inputs.len(),
        ensures
            final(self)@ == (EditorView {
                nodes: set_link(old(self)@.nodes, to, input_index as int, from),
                ..old(self)@
            }),
    {
        let mut node = self.nodes.remove(&to).unwrap();
        let ghost before = node@;
        node.inputs[input_index].connected_id = from;
        proof {
            assert(input_views(node.inputs@) =~= before.inputs.update(
                input_index as int,
                InputView { connected: from, ..before.inputs[input_index as int] },
            ));
        }
        self.nodes.insert(to, node);
        proof {
            assert(self@.nodes =~= set_link(old(self)@.nodes, to, input_index as int, from));
        }
    }

    /// Appends `target` to the output list of node `k`.
    fn add_target(&mut self, k: usize, target: usize)
        requires
            old(self)@.nodes.contains_key(k),
        ensures
            final(self)@ == (EditorView { nodes: push_target(old(self)@.nodes, k, target), ..old(self)@ }),
    {
        let mut node = self.nodes.remove(&k).unwrap();
        node.output.connected_ids.push(target);
        self.nodes.insert(k, node);
        proof {
            assert(self@.nodes =~= push_target(old(self)@.nodes, k, target));
        }
    }

    /// Connects the output of node `from_node_id` to input `input_index` of node `to_node_id`,
    /// when the connection closes no loop and the data types match; otherwise changes nothing.
    pub fn connect_nodes(&mut self, from_node_id: usize, to_node_id: usize, input_index: usize)
        requires
            upstream_closed(old(self)@.nodes, from_node_id),
            old(self)@.nodes.contains_key(from_node_id),
            loop_free(old(self)@.nodes, from_node_id, to_node_id, Seq::empty()) ==> (old(
                self,
            )@.nodes.contains_key(to_node_id) && input_index < old(self)@.nodes[to_node_id].inputs.len()),
        ensures
            final(self)@ == (EditorView {
                nodes: if connection_allowed(old(self)@.nodes, from_node_id, to_node_id, input_index as int) {
                    connected_graph(old(self)@.nodes, from_node_id, to_node_id, input_index as int)
                } else {
                    old(self)@.nodes
                },
                ..old(self)@
            }),
            links_closed(old(self)@.nodes) && acyclic(old(self)@.nodes) && old(self)@.nodes.contains_key(
                to_node_id,
            ) && input_index < old(self)@.nodes[to_node_id].inputs.len() ==> final(self)@.nodes == if !depends_on(
                old(self)@.nodes,
                from_node_id,
                to_node_id,
            ) && old(self)@.nodes[from_node_id].output.data_type == old(
                self,
            )@.nodes[to_node_id].inputs[input_index as int].data_type {
                connected_graph(old(self)@.nodes, from_node_id, to_node_id, input_index as int)
            } else {
                old(self)@.nodes
            },
    {
        proof {
            self.lemma_finite_nodes();
            if links_closed(self@.nodes) && acyclic(self@.nodes) && self@.nodes.contains_key(to_node_id)
                && input_index < self@.nodes[to_node_id].inputs.len() {
                crate::laws::law_connect_nodes_decides(self@.nodes, from_node_id, to_node_id, input_index as int);
            }
        }
        let passed: Vec<usize> = Vec::new();
        if self.is_safe_from_infinite_loop(from_node_id, to_node_id, &passed) && self.are_types_matched(
            from_node_id,
            to_node_id,
            input_index,
        ) {
            self.link_input(to_node_id, input_index, from_node_id);
            self.add_target(from_node_id, to_node_id);
        }
    }

    /// Removes the first occurrence of `target` from the output list of node `k`, if any.
    fn drop_first_target(&mut self, k: usize, target: usize)
        requires
            old(self)@.nodes.contains_key(k),
        ensures
            final(self)@ == (EditorView { nodes: drop_target(old(self)@.nodes, k, target), ..old(self)@ }),
    {
        let mut node = self.nodes.remove(&k).unwrap();
        let ghost s = node.output.connected_ids@;
        let n = node.output.connected_ids.len();
        let mut i: usize = 0;
        while i < n
            invariant
                i <= n,
                n == s.len(),
                node.output.connected_ids@ == s,
                forall|j: int| 0 <= j < i ==> s[j] != target,
            ensures
                i <= n,
                forall|j: int| 0 <= j < i ==> s[j] != target,
                i < n ==> s[i as int] == target,
            decreases n - i,
        {
            if node.output.connected_ids[i] == target {
                break;
            }
            i += 1;
        }
        if i < n {
            node.output.connected_ids.remove(i);
            proof {
                lemma_remove_first_at(s, target, i as int);
            }
        } else {
            proof {
                lemma_remove_first_absent(s, target);
            }
        }
        self.nodes.insert(k, node);
        proof {
            assert(self@.nodes =~= drop_target(old(self)@.nodes, k, target));
        }
    }

    /// Disconnects input `input_index` of node `to_node_id`: the socket is freed, and the node
    /// that fed it, if any, drops the first listing of `to_node_id` from its output.
    pub fn remove_connection(&mut self, to_node_id: usize, input_index: usize)
        requires
            old(self)@.nodes.contains_key(to_node_id),
            input_index < old(self)@.nodes[to_node_id].inputs.len(),
            old(self)@.nodes[to_node_id].inputs[input_index as int].connected != 0 ==> old(
                self,
            )@.nodes.contains_key(old(self)@.nodes[to_node_id].inputs[input_index as int].connected),
        ensures
            final(self)@ == (EditorView {
                nodes: after_remove_connection(old(self)@.nodes, to_node_id, input_index as int),
                ..old(self)@
            }),
    {
        let feeder = self.connection_of(to_node_id, input_index);
        self.link_input(to_node_id, input_index, 0);
        if feeder != 0 {
            self.drop_first_target(feeder, to_node_id);
        }
    }
}

/// `s` without its first occurrence of `x`.
pub open spec fn remove_first(s: Seq<usize>, x: usize) -> Seq<usize>
    decreases s.len(),
{
    if s.len() == 0 {
        s
    } else if s[0] == x {
        s.skip(1)
    } else {
        seq![s[0]] + remove_first(s.skip(1), x)
    }
}

/// Removing the first occurrence of `target` from the output list of node `k`.
pub open spec fn drop_target(g: Graph, k: usize, target: usize) -> Graph {
    g.insert(
        k,
        NodeView {
            output: OutputView { targets: remove_first(g[k].output.targets, target), ..g[k].output },
            ..g[k]
        },
    )
}

proof fn lemma_remove_first_at(s: Seq<usize>, x: usize, i: int)
    requires
        0 <= i < s.len(),
        s[i] == x,
        forall|j: int| 0 <= j < i ==> s[j] != x,
    ensures
        remove_first(s, x) == s.remove(i),
    decreases i,
{
    if i == 0 {
        assert(s.skip(1) =~= s.remove(0));
    } else {
        lemma_remove_first_at(s.skip(1), x, i - 1);
        assert(seq![s[0]] + s.skip(1).remove(i - 1) =~= s.remove(i));
    }
}

proof fn lemma_remove_first_absent(s: Seq<usize>, x: usize)
    requires
        forall|j: int| 0 <= j < s.len() ==> s[j] != x,
    ensures
        remove_first(s, x) == s,
    decreases s.len(),
{
    if s.len() > 0 {
        lemma_remove_first_absent(s.skip(1), x);
        assert(seq![s[0]] + s.skip(1) =~= s);
    }
}

/// `s` without any occurrence of `x`.
pub open spec fn without(s: Seq<usize>, x: usize) -> Seq<usize>
    decreases s.len(),
{
    if s.len() == 0 {
        s
    } else if s.last() == x {
        without(s.drop_last(), x)
    } else {
        without(s.drop_last(), x).push(s.last())
    }
}

/// The node with every occurrence of `t` removed from its output list.
pub open spec fn unlist(v: NodeView, t: usize) -> NodeView {
    NodeView { output: OutputView { targets: without(v.output.targets, t), ..v.output }, ..v }
}

/// The ids that feed the input sockets of a node, in socket order; 0 for a free socket.
pub open spec fn link_ids(v: NodeView) -> Seq<usize> {
    v.inputs.map_values(|i: InputView| i.connected)
}

/// The graph in which the nodes among `feeders` (other than 0) no longer list `node_id`.
pub open spec fn unlisted_by(g: Graph, node_id: usize, feeders: Seq<usize>) -> Graph {
    Map::new(
        |k: usize| g.dom().contains(k),
        |k: usize|
            if k != 0 && feeders.contains(k) {
                unlist(g[k], node_id)
            } else {
                g[k]
            },
    )
}

/// The input sockets with the first `count` of those fed by `n` freed.
pub open spec fn clear_links(s: Seq<InputView>, n: usize, count: nat) -> Seq<InputView>
    decreases s.len(),
{
    if s.len() == 0 {
        s
    } else if count > 0 && s[0].connected == n {
        seq![InputView { connected: 0, ..s[0] }] + clear_links(s.skip(1), n, (count - 1) as nat)
    } else {
        seq![s[0]] + clear_links(s.skip(1), n, count)
    }
}

/// The graph in which each node frees as many of its sockets fed by `node_id` as it occurs in
/// `list`, first sockets first.
pub open spec fn cut_by(g: Graph, node_id: usize, list: Seq<usize>) -> Graph {
    Map::new(
        |k: usize| g.dom().contains(k),
        |k: usize| NodeView { inputs: clear_links(g[k].inputs, node_id, occurrences(list, k)), ..g[k] },
    )
}

/// The graph after node `node_id` is disconnected: first every node feeding it drops it from
/// its output list; then each node on its output list frees, once per listing, its first
/// socket fed by `node_id`.
pub open spec fn disconnected_graph(g: Graph, node_id: usize) -> Graph {
    let g1 = unlisted_by(g, node_id, link_ids(g[node_id]));
    cut_by(g1, node_id, g1[node_id].output.targets)
}

proof fn lemma_without_idempotent(s: Seq<usize>, x: usize)
    ensures
        without(without(s, x), x) == without(s, x),
    decreases s.len(),
{
    if s.len() > 0 {
        lemma_without_idempotent(s.drop_last(), x);
        if s.last() != x {
            let w = without(s.drop_last(), x);
            assert(w.push(s.last()).drop_last() =~= w);
        }
    }
}

proof fn lemma_clear_links_zero(s: Seq<InputView>, n: usize)
    ensures
        clear_links(s, n, 0) == s,
    decreases s.len(),
{
    if s.len() > 0 {
        lemma_clear_links_zero(s.skip(1), n);
        assert(seq![s[0]] + s.skip(1) =~= s);
    }
}

proof fn lemma_clear_links_len(s: Seq<InputView>, n: usize, count: nat)
    ensures
        clear_links(s, n, count).len() == s.len(),
    decreases s.len(),
{
    if s.len() > 0 {
        if count > 0 && s[0].connected == n {
            lemma_clear_links_len(s.skip(1), n, (count - 1) as nat);
        } else {
            lemma_clear_links_len(s.skip(1), n, count);
        }
    }
}

/// Freeing sockets fed by node 0 changes nothing: free sockets already hold 0.
proof fn lemma_clear_links_of_zero(s: Seq<InputView>, count: nat)
    ensures
        clear_links(s, 0, count) == s,
    decreases s.len(),
{
    if s.len() > 0 {
        if count > 0 && s[0].connected == 0 {
            lemma_clear_links_of_zero(s.skip(1), (count - 1) as nat);
            assert(InputView { connected: 0, ..s[0] } == s[0]);
        } else {
            lemma_clear_links_of_zero(s.skip(1), count);
        }
        assert(seq![s[0]] + s.skip(1) =~= s);
    }
}

/// Freeing one more socket is freeing the first socket still fed by `n`.
proof fn lemma_clear_links_step(s: Seq<InputView>, n: usize, count: nat)
    ensures
        clear_links(clear_links(s, n, count), n, 1) == clear_links(s, n, count + 1),
    decreases s.len(),
{
    if n == 0 {
        lemma_clear_links_of_zero(s, count);
        lemma_clear_links_of_zero(s, 1);
        lemma_clear_links_of_zero(s, count + 1);
    } else if s.len() > 0 {
        let c = clear_links(s, n, count);
        let s0 = s[0];
        let s1 = s.skip(1);
        if count > 0 && s0.connected == n {
            lemma_clear_links_step(s1, n, (count - 1) as nat);
            let rest = clear_links(s1, n, (count - 1) as nat);
            assert(c == seq![InputView { connected: 0, ..s0 }] + rest);
            assert(c[0] == InputView { connected: 0, ..s0 });
            assert(c.skip(1) =~= rest);
            assert(clear_links(c, n, 1) == seq![c[0]] + clear_links(c.skip(1), n, 1));
        } else if s0.connected == n {
            lemma_clear_links_zero(s, n);
        } else {
            lemma_clear_links_step(s1, n, count);
            let rest = clear_links(s1, n, count);
            assert(c == seq![s0] + rest);
            assert(c[0] == s0);
            assert(c.skip(1) =~= rest);
            assert(clear_links(c, n, 1) == seq![c[0]] + clear_links(c.skip(1), n, 1));
        }
    }
}

/// Freeing one socket fed by `n` is freeing the first such socket, if there is one.
proof fn lemma_clear_one_at(s: Seq<InputView>, n: usize, i: int)
    requires
        0 <= i < s.len(),
        s[i].connected == n,
        forall|j: int| 0 <= j < i ==> s[j].connected != n,
    ensures
        clear_links(s, n, 1) == s.update(i, InputView { connected: 0, ..s[i] }),
    decreases i,
{
    if i == 0 {
        lemma_clear_links_zero(s.skip(1), n);
        assert(seq![InputView { connected: 0, ..s[0] }] + s.skip(1) =~= s.update(
            0,
            InputView { connected: 0, ..s[0] },
        ));
    } else {
        lemma_clear_one_at(s.skip(1), n, i - 1);
        assert(seq![s[0]] + s.skip(1).update(i - 1, InputView { connected: 0, ..s[i] }) =~= s.update(
            i,
            InputView { connected: 0, ..s[i] },
        ));
    }
}

proof fn lemma_clear_one_absent(s: Seq<InputView>, n: usize, count: nat)
    requires
        forall|j: int| 0 <= j < s.len() ==> s[j].connected != n,
    ensures
        clear_links(s, n, count) == s,
    decreases s.len(),
{
    if s.len() > 0 {
        lemma_clear_one_absent(s.skip(1), n, count);
        assert(seq![s[0]] + s.skip(1) =~= s);
    }
}

impl Editor {
    /// Removes every occurrence of `t` from the output list of node `k`.
    fn unlist_target(&mut self, k: usize, t: usize)
        requires
            old(self)@.nodes.contains_key(k),
        ensures
            final(self)@ == (EditorView {
                nodes: old(self)@.nodes.insert(k, unlist(old(self)@.nodes[k], t)),
                ..old(self)@
            }),
    {
        let mut node = self.nodes.remove(&k).unwrap();
        let ghost s = node.output.connected_ids@;
        let mut kept: Vec<usize> = Vec::new();
        let n = node.output.connected_ids.len();
        let mut i: usize = 0;
        while i < n
            invariant
                i <= n,
                n == s.len(),
                node.output.connected_ids@ == s,
                kept@ == without(s.take(i as int), t),
            decreases n - i,
        {
            let y = node.output.connected_ids[i];
            assert(s.take(i + 1).drop_last() =~= s.take(i as int));
            if y != t {
                kept.push(y);
            }
            i += 1;
        }
        assert(s.take(n as int) =~= s);
        node.output.connected_ids = kept;
        self.nodes.insert(k, node);
        proof {
            assert(self@.nodes =~= old(self)@.nodes.insert(k, unlist(old(self)@.nodes[k], t)));
        }
    }

    /// Frees the first input socket of node `k` fed by `n`, if there is one.
    fn free_first_link(&mut self, k: usize, n: usize)
        requires
            old(self)@.nodes.contains_key(k),
        ensures
            final(self)@ == (EditorView {
                nodes: old(self)@.nodes.insert(
                    k,
                    NodeView { inputs: clear_links(old(self)@.nodes[k].inputs, n, 1), ..old(self)@.nodes[k] },
                ),
                ..old(self)@
            }),
    {
        let mut node = self.nodes.remove(&k).unwrap();
        let ghost before = node@;
        let len = node.inputs.len();
        let mut i: usize = 0;
        while i < len
            invariant
                i <= len,
                len == before.inputs.len(),
                node@ == before,
                forall|j: int| 0 <= j < i ==> before.inputs[j].connected != n,
            ensures
                i <= len,
                forall|j: int| 0 <= j < i ==> before.inputs[j].connected != n,
                i < len ==> before.inputs[i as int].connected == n,
            decreases len - i,
        {
            assert(node.inputs@[i as int]@ == before.inputs[i as int]);
            if node.inputs[i].connected_id == n {
                break;
            }
            i += 1;
        }
        if i < len {
            node.inputs[i].connected_id = 0;
            proof {
                lemma_clear_one_at(before.inputs, n, i as int);
                assert(input_views(node.inputs@) =~= before.inputs.update(
                    i as int,
                    InputView { connected: 0, ..before.inputs[i as int] },
                ));
            }
        } else {
            proof {
                lemma_clear_one_absent(before.inputs, n, 1);
            }
        }
        self.nodes.insert(k, node);
        proof {
            assert(self@.nodes =~= old(self)@.nodes.insert(
                k,
                NodeView { inputs: clear_links(before.inputs, n, 1), ..before },
            ));
        }
    }

    /// The ids feeding the input sockets of node `k`.
    fn feeder_ids(&self, k: usize) -> (ids: Vec<usize>)
        requires
            self@.nodes.contains_key(k),
        ensures
            ids@ == link_ids(self@.nodes[k]),
    {
        let node = self.nodes.get(&k).unwrap();
        let ghost v = node@;
        let mut ids: Vec<usize> = Vec::new();
        let mut i: usize = 0;
        while i < node.inputs.len()
            invariant
                i <= node.inputs.len(),
                node@ == v,
                v == self@.nodes[k],
                ids@ == link_ids(v).take(i as int),
            decreases node.inputs.len() - i,
        {
            assert(node.inputs@[i as int]@ == v.inputs[i as int]);
            ids.push(node.inputs[i].connected_id);
            assert(link_ids(v).take(i + 1) =~= link_ids(v).take(i as int).push(v.inputs[i as int].connected));
            i += 1;
        }
        assert(link_ids(v).take(i as int) =~= link_ids(v));
        ids
    }

    /// The output list of node `k`.
    fn target_ids(&self, k: usize) -> (ids: Vec<usize>)
        requires
            self@.nodes.contains_key(k),
        ensures
            ids@ == self@.nodes[k].output.targets,
    {
        let node = self.nodes.get(&k).unwrap();
        let ids = node.output.connected_ids.clone();
        assert(ids@ =~= node.output.connected_ids@);
        ids
    }

    /// Disconnects node `node_id` from the graph: the nodes feeding it stop listing it, and
    /// each node it feeds frees, once per listing, its first socket fed by it.
    pub fn disconnect_node_to_remove(&mut self, node_id: usize)
        requires
            old(self)@.nodes.contains_key(node_id),
            forall|i: int|
                0 <= i < old(self)@.nodes[node_id].inputs.len() && (#[trigger] old(
                    self,
                )@.nodes[node_id].inputs[i]).connected != 0 ==> old(self)@.nodes.contains_key(
                    old(self)@.nodes[node_id].inputs[i].connected,
                ),
            forall|j: int|
                0 <= j < old(self)@.nodes[node_id].output.targets.len() ==> old(
                    self,
                )@.nodes.contains_key(#[trigger] old(self)@.nodes[node_id].output.targets[j]),
        ensures
            final(self)@ == (EditorView { nodes: disconnected_graph(old(self)@.nodes, node_id), ..old(self)@ }),
    {
        let ghost g = self@.nodes;
        let feeders = self.feeder_ids(node_id);
        let mut j: usize = 0;
        proof {
            assert(unlisted_by(g, node_id, feeders@.take(0)) =~= g);
        }
        while j < feeders.len()
            invariant
                j <= feeders.len(),
                feeders@ == link_ids(g[node_id]),
                g.contains_key(node_id),
                forall|i: int|
                    0 <= i < g[node_id].inputs.len() && (#[trigger] g[node_id].inputs[i]).connected != 0
                        ==> g.contains_key(g[node_id].inputs[i].connected),
                self@ == (EditorView { nodes: unlisted_by(g, node_id, feeders@.take(j as int)), ..old(self)@ }),
            decreases feeders.len() - j,
        {
            let c = feeders[j];
            let ghost before = self@.nodes;
            assert(feeders@.take(j + 1) =~= feeders@.take(j as int).push(c));
            if c != 0 {
                assert(g[node_id].inputs[j as int].connected == c);
                assert(g.contains_key(c));
                self.unlist_target(c, node_id);
                proof {
                    if feeders@.take(j as int).contains(c) {
                        lemma_without_idempotent(g[c].output.targets, node_id);
                    }
                }
            }
            proof {
                let t0 = feeders@.take(j as int);
                let t1 = feeders@.take(j + 1);
                assert forall|k: usize| #[trigger] t1.contains(k) == (t0.contains(k) || k == c) by {
                    if t1.contains(k) {
                        let m = choose|m: int| 0 <= m < t1.len() && t1[m] == k;
                        if m < t0.len() {
                            assert(t0[m] == k);
                        }
                    }
                    if t0.contains(k) {
                        let m = choose|m: int| 0 <= m < t0.len() && t0[m] == k;
                        assert(t1[m] == k);
                    }
                    if k == c {
                        assert(t1[j as int] == k);
                    }
                }
            }
            assert(self@.nodes =~= unlisted_by(g, node_id, feeders@.take(j + 1)));
            j += 1;
        }
        assert(feeders@.take(j as int) =~= feeders@);
        let ghost g1 = self@.nodes;
        let targets = self.target_ids(node_id);
        proof {
            assert forall|k: usize| g1.contains_key(k) implies #[trigger] cut_by(g1, node_id, targets@.take(0))[k]
                == g1[k] by {
                lemma_clear_links_zero(g1[k].inputs, node_id);
            }
            assert(cut_by(g1, node_id, targets@.take(0)) =~= g1);
            assert forall|m: int| 0 <= m < targets@.len() implies g1.contains_key(#[trigger] targets@[m]) by {
                if node_id != 0 && link_ids(g[node_id]).contains(node_id) {
                    assert(g1[node_id] == unlist(g[node_id], node_id));
                    lemma_without_member(g[node_id].output.targets, node_id, m);
                } else {
                    assert(g1[node_id] == g[node_id]);
                }
            }
        }
        let mut j: usize = 0;
        while j < targets.len()
            invariant
                j <= targets.len(),
                forall|m: int| 0 <= m < targets@.len() ==> g1.contains_key(#[trigger] targets@[m]),
                self@ == (EditorView { nodes: cut_by(g1, node_id, targets@.take(j as int)), ..old(self)@ }),
            decreases targets.len() - j,
        {
            let x = targets[j];
            self.free_first_link(x, node_id);
            proof {
                let t = targets@.take(j + 1);
                assert(t =~= targets@.take(j as int).push(x));
                assert forall|k: usize| #[trigger] occurrences(t, k) == occurrences(targets@.take(j as int), k) + if k == x {
                    1nat
                } else {
                    0nat
                } by {
                    lemma_occurrences_push(targets@.take(j as int), x, k);
                }
                lemma_clear_links_step(g1[x].inputs, node_id, occurrences(targets@.take(j as int), x));
                assert(self@.nodes =~= cut_by(g1, node_id, t));
            }
            j += 1;
        }
        assert(targets@.take(j as int) =~= targets@);
    }

    /// Disconnects node `node_id` and removes it.
    pub fn remove_node(&mut self, node_id: usize)
        requires
            old(self)@.nodes.contains_key(node_id),
            forall|i: int|
                0 <= i < old(self)@.nodes[node_id].inputs.len() && (#[trigger] old(
                    self,
                )@.nodes[node_id].inputs[i]).connected != 0 ==> old(self)@.nodes.contains_key(
                    old(self)@.nodes[node_id].inputs[i].connected,
                ),
            forall|j: int|
                0 <= j < old(self)@.nodes[node_id].output.targets.len() ==> old(
                    self,
                )@.nodes.contains_key(#[trigger] old(self)@.nodes[node_id].output.targets[j]),
        ensures
            final(self)@ == (EditorView {
                nodes: disconnected_graph(old(self)@.nodes, node_id).remove(node_id),
                ..old(self)@
            }),
    {
        self.disconnect_node_to_remove(node_id);
        self.drop_node(node_id);
    }

    /// Takes node `node_id` out of the editor, as the last step of removing it once it has
    /// been disconnected.
    pub fn drop_node(&mut self, node_id: usize)
        ensures
            final(self)@ == (EditorView { nodes: old(self)@.nodes.remove(node_id), ..old(self)@ }),
    {
        self.nodes.remove(&node_id);
        proof {
            assert(self@.nodes =~= old(self)@.nodes.remove(node_id));
        }
    }
}

/// An element of `without(s, x)` is an element of `s`.
pub proof fn lemma_without_member(s: Seq<usize>, x: usize, m: int)
    requires
        0 <= m < without(s, x).len(),
    ensures
        s.contains(without(s, x)[m]),
    decreases s.len(),
{
    if s.len() > 0 {
        let w = without(s.drop_last(), x);
        if s.last() == x {
            lemma_without_member(s.drop_last(), x, m);
            let k = choose|k: int| 0 <= k < s.drop_last().len() && s.drop_last()[k] == w[m];
            assert(s[k] == w[m]);
        } else if m < w.len() {
            lemma_without_member(s.drop_last(), x, m);
            let k = choose|k: int| 0 <= k < s.drop_last().len() && s.drop_last()[k] == w[m];
            assert(s[k] == w[m]);
        } else {
            assert(s[s.len() - 1] == without(s, x)[m]);
        }
    }
}

/// What a repeat-string node makes of its text `s` and count `n`: `s` written `n` times; the
/// empty text whatever the count; nothing (`str::repeat` would panic) when `s` is not empty
/// and `n` is negative or too large.
pub open spec fn repeat_result(s: Seq<char>, n: isize) -> Option<ValueView> {
    if s.len() == 0 {
        Some(ValueView::Text(Seq::empty()))
    } else if n >= 0 && s.len() * n <= repeat_limit() {
        Some(ValueView::Text(repeat_text(s, n as nat)))
    } else {
        None
    }
}

/// The value of node `id`, evaluated through at most `fuel` nested nodes, with `cache`
/// holding values already known; `None` when the evaluation fails or needs more steps.
pub open spec fn eval_node(g: Graph, cache: Map<usize, ValueView>, id: usize, fuel: nat) -> Option<ValueView>
    decreases fuel, 0nat,
{
    if fuel == 0 || !g.contains_key(id) {
        None
    } else {
        let node = g[id];
        match node.kind {
            MyNodeTemplate::NewNumber => if node.inputs.len() >= 1 {
                match eval_input(g, cache, node.inputs[0], (fuel - 1) as nat) {
                    Some(v) => Some(ValueView::Isize(as_isize(v))),
                    None => None,
                }
            } else {
                None
            },
            MyNodeTemplate::RepeatString => if node.inputs.len() >= 2 {
                match eval_input(g, cache, node.inputs[0], (fuel - 1) as nat) {
                    Some(a) => match eval_input(g, cache, node.inputs[1], (fuel - 1) as nat) {
                        Some(b) => repeat_result(as_text(a), as_isize(b)),
                        None => None,
                    },
                    None => None,
                }
            } else {
                None
            },
        }
    }
}

/// The value an input socket supplies: its own value when free, else the cached value of the
/// node feeding it, else that node's value.
pub open spec fn eval_input(g: Graph, cache: Map<usize, ValueView>, input: InputView, fuel: nat) -> Option<ValueView>
    decreases fuel, 1nat,
{
    if input.connected == 0 {
        Some(input.value)
    } else if cache.contains_key(input.connected) {
        Some(cache[input.connected])
    } else {
        eval_node(g, cache, input.connected, fuel)
    }
}

/// Evaluating node `id` ends with a value.
pub open spec fn node_evaluates(g: Graph, cache: Map<usize, ValueView>, id: usize) -> bool {
    exists|fuel: nat| #[trigger] eval_node(g, cache, id, fuel) is Some
}

/// The input socket supplies a value.
pub open spec fn input_evaluates(g: Graph, cache: Map<usize, ValueView>, input: InputView) -> bool {
    exists|fuel: nat| #[trigger] eval_input(g, cache, input, fuel) is Some
}

/// The fewest nested steps with which node `id` evaluates.
pub open spec fn node_depth(g: Graph, cache: Map<usize, ValueView>, id: usize) -> nat {
    choose|fuel: nat|
        #[trigger] eval_node(g, cache, id, fuel) is Some && forall|f: nat|
            f < fuel ==> #[trigger] eval_node(g, cache, id, f) is None
}

/// The fewest nested steps with which the input socket supplies a value.
pub open spec fn input_depth(g: Graph, cache: Map<usize, ValueView>, input: InputView) -> nat {
    choose|fuel: nat|
        #[trigger] eval_input(g, cache, input, fuel) is Some && forall|f: nat|
            f < fuel ==> #[trigger] eval_input(g, cache, input, f) is None
}

/// The value of node `id`.
pub open spec fn node_value(g: Graph, cache: Map<usize, ValueView>, id: usize) -> ValueView {
    eval_node(g, cache, id, node_depth(g, cache, id)).unwrap()
}

/// The value the input socket supplies.
pub open spec fn input_value(g: Graph, cache: Map<usize, ValueView>, input: InputView) -> ValueView {
    eval_input(g, cache, input, input_depth(g, cache, input)).unwrap()
}

/// More steps do not change a value once found.
proof fn lemma_eval_node_step(g: Graph, cache: Map<usize, ValueView>, id: usize, fuel: nat)
    requires
        eval_node(g, cache, id, fuel) is Some,
    ensures
        eval_node(g, cache, id, fuel + 1) == eval_node(g, cache, id, fuel),
    decreases fuel, 0nat,
{
    let node = g[id];
    let f1 = (fuel - 1) as nat;
    match node.kind {
        MyNodeTemplate::NewNumber => {
            lemma_eval_input_step(g, cache, node.inputs[0], f1);
        },
        MyNodeTemplate::RepeatString => {
            lemma_eval_input_step(g, cache, node.inputs[0], f1);
            lemma_eval_input_step(g, cache, node.inputs[1], f1);
        },
    }
}

proof fn lemma_eval_input_step(g: Graph, cache: Map<usize, ValueView>, input: InputView, fuel: nat)
    requires
        eval_input(g, cache, input, fuel) is Some,
    ensures
        eval_input(g, cache, input, fuel + 1) == eval_input(g, cache, input, fuel),
    decreases fuel, 1nat,
{
    if input.connected != 0 && !cache.contains_key(input.connected) {
        lemma_eval_node_step(g, cache, input.connected, fuel);
    }
}

pub proof fn lemma_eval_node_more(g: Graph, cache: Map<usize, ValueView>, id: usize, fuel: nat, more: nat)
    requires
        eval_node(g, cache, id, fuel) is Some,
        fuel <= more,
    ensures
        eval_node(g, cache, id, more) == eval_node(g, cache, id, fuel),
    decreases more - fuel,
{
    if fuel < more {
        lemma_eval_node_step(g, cache, id, fuel);
        lemma_eval_node_more(g, cache, id, fuel + 1, more);
    }
}

proof fn lemma_eval_input_more(g: Graph, cache: Map<usize, ValueView>, input: InputView, fuel: nat, more: nat)
    requires
        eval_input(g, cache, input, fuel) is Some,
        fuel <= more,
    ensures
        eval_input(g, cache, input, more) == eval_input(g, cache, input, fuel),
    decreases more - fuel,
{
    if fuel < more {
        lemma_eval_input_step(g, cache, input, fuel);
        lemma_eval_input_more(g, cache, input, fuel + 1, more);
    }
}

/// The fewest steps exist, and any number of steps that suffices gives the same value.
pub proof fn lemma_node_depth(g: Graph, cache: Map<usize, ValueView>, id: usize, fuel: nat)
    requires
        eval_node(g, cache, id, fuel) is Some,
    ensures
        eval_node(g, cache, id, node_depth(g, cache, id)) is Some,
        node_depth(g, cache, id) <= fuel,
        forall|f: nat| f < node_depth(g, cache, id) ==> #[trigger] eval_node(g, cache, id, f) is None,
        node_value(g, cache, id) == eval_node(g, cache, id, fuel).unwrap(),
    decreases fuel,
{
    if fuel > 0 && eval_node(g, cache, id, (fuel - 1) as nat) is Some {
        lemma_node_depth(g, cache, id, (fuel - 1) as nat);
        lemma_eval_node_step(g, cache, id, (fuel - 1) as nat);
    } else {
        assert forall|f: nat| f < fuel implies #[trigger] eval_node(g, cache, id, f) is None by {
            if eval_node(g, cache, id, f) is Some {
                lemma_eval_node_more(g, cache, id, f, (fuel - 1) as nat);
            }
        }
        let d = node_depth(g, cache, id);
        assert(eval_node(g, cache, id, d) is Some);
        if d < fuel {
        } else if d > fuel {
            assert(eval_node(g, cache, id, fuel) is None);
        }
    }
}

proof fn lemma_input_depth(g: Graph, cache: Map<usize, ValueView>, input: InputView, fuel: nat)
    requires
        eval_input(g, cache, input, fuel) is Some,
    ensures
        eval_input(g, cache, input, input_depth(g, cache, input)) is Some,
        input_depth(g, cache, input) <= fuel,
        forall|f: nat| f < input_depth(g, cache, input) ==> #[trigger] eval_input(g, cache, input, f) is None,
        input_value(g, cache, input) == eval_input(g, cache, input, fuel).unwrap(),
    decreases fuel,
{
    if fuel > 0 && eval_input(g, cache, input, (fuel - 1) as nat) is Some {
        lemma_input_depth(g, cache, input, (fuel - 1) as nat);
        lemma_eval_input_step(g, cache, input, (fuel - 1) as nat);
    } else {
        assert forall|f: nat| f < fuel implies #[trigger] eval_input(g, cache, input, f) is None by {
            if eval_input(g, cache, input, f) is Some {
                lemma_eval_input_more(g, cache, input, f, (fuel - 1) as nat);
            }
        }
        let d = input_depth(g, cache, input);
        assert(eval_input(g, cache, input, d) is Some);
        if d < fuel {
        } else if d > fuel {
            assert(eval_input(g, cache, input, fuel) is None);
        }
    }
}

impl Editor {
    /// The value of node `node_id`, computed from the values its input sockets supply.
    fn _evaluate_node(&self, node_id: usize) -> (value: MyValueType)
        requires
            node_evaluates(self@.nodes, self@.cache, node_id),
        ensures
            value@ == node_value(self@.nodes, self@.cache, node_id),
        decreases node_depth(self@.nodes, self@.cache, node_id), 0nat,
    {
        let ghost g = self@.nodes;
        let ghost cache = self@.cache;
        let ghost d = node_depth(g, cache, node_id);
        proof {
            let f = choose|f: nat| #[trigger] eval_node(g, cache, node_id, f) is Some;
            lemma_node_depth(g, cache, node_id, f);
            lemma_node_depth(g, cache, node_id, d);
        }
        let node = self.nodes.get(&node_id).unwrap();
        assert(node@ == g[node_id]);
        match node.node_type {
            MyNodeTemplate::NewNumber => {
                let input = &node.inputs[0];
                proof {
                    assert(input@ == g[node_id].inputs[0]);
                    lemma_input_depth(g, cache, input@, (d - 1) as nat);
                }
                let supplied = self.evaluate_input(input);
                let ghost sv = supplied@;
                let n = supplied.try_to_isize();
                proof {
                    assert(g[node_id].kind == MyNodeTemplate::NewNumber);
                    assert(eval_input(g, cache, input@, (d - 1) as nat) == Some(sv));
                    assert(eval_node(g, cache, node_id, d) == Some(ValueView::Isize(as_isize(sv))));
                    assert(n == as_isize(sv));
                    assert(node_value(g, cache, node_id) == ValueView::Isize(n));
                }
                let r = MyValueType::Isize { value: n };
                assert(r@ == ValueView::Isize(n));
                assert(r@ == node_value(self@.nodes, self@.cache, node_id));
                r
            },
            MyNodeTemplate::RepeatString => {
                let first = &node.inputs[0];
                let second = &node.inputs[1];
                proof {
                    assert(first@ == g[node_id].inputs[0]);
                    assert(second@ == g[node_id].inputs[1]);
                    lemma_input_depth(g, cache, first@, (d - 1) as nat);
                    lemma_input_depth(g, cache, second@, (d - 1) as nat);
                }
                let a = self.evaluate_input(first);
                let ghost av = a@;
                let text = a.try_to_String();
                let b = self.evaluate_input(second);
                let ghost bv = b@;
                let count = b.try_to_isize();
                let times: usize = #[verifier::truncate] (count as usize);
                proof {
                    assert(g[node_id].kind == MyNodeTemplate::RepeatString);
                    assert(eval_input(g, cache, first@, (d - 1) as nat) == Some(av));
                    assert(eval_input(g, cache, second@, (d - 1) as nat) == Some(bv));
                    assert(eval_node(g, cache, node_id, d) == repeat_result(as_text(av), as_isize(bv)));
                    assert(text@ == as_text(av));
                    assert(count == as_isize(bv));
                    assert(eval_node(g, cache, node_id, d) is Some);
                    if text@.len() == 0 {
                        lemma_repeat_empty(times as nat);
                        assert(text@ =~= Seq::<char>::empty());
                        assert(repeat_text(text@, times as nat) =~= Seq::<char>::empty());
                    } else {
                        assert(count >= 0);
                        assert(times == count);
                    }
                    assert(repeat_result(text@, count) == Some(ValueView::Text(repeat_text(text@, times as nat))));
                }
                let repeated = repeat_str(text.as_str(), times);
                let r = MyValueType::String { value: repeated };
                assert(r@ == node_value(self@.nodes, self@.cache, node_id));
                r
            },
        }
    }

    /// The value an input socket supplies: its own value when free, else the cached value of
    /// the node feeding it, else that node's value.
    pub fn evaluate_input(&self, input: &Input) -> (value: MyValueType)
        requires
            input_evaluates(self@.nodes, self@.cache, input@),
        ensures
            value@ == input_value(self@.nodes, self@.cache, input@),
        decreases input_depth(self@.nodes, self@.cache, input@), 1nat,
    {
        let ghost g = self@.nodes;
        let ghost cache = self@.cache;
        proof {
            let f = choose|f: nat| #[trigger] eval_input(g, cache, input@, f) is Some;
            lemma_input_depth(g, cache, input@, f);
        }
        if input.connected_id == 0 {
            input.value.clone()
        } else {
            match self.outputs_cache.get(&input.connected_id) {
                Some(value) => value.clone(),
                _ => {
                    proof {
                        let d = input_depth(g, cache, input@);
                        lemma_node_depth(g, cache, input.connected_id, d);
                    }
                    self._evaluate_node(input.connected_id)
                },
            }
        }
    }

    /// Empties the cache of node values and evaluates node `node_id`.
    pub fn evaluate_node(&mut self, node_id: usize) -> (value: MyValueType)
        requires
            node_evaluates(old(self)@.nodes, Map::empty(), node_id),
        ensures
            final(self)@ == (EditorView { cache: Map::empty(), ..old(self)@ }),
            value@ == node_value(old(self)@.nodes, Map::empty(), node_id),
    {
        self.outputs_cache = HashMap::new();
        proof {
            assert(self@.cache =~= Map::<usize, ValueView>::empty());
            assert(self@.nodes == old(self)@.nodes);
        }
        self._evaluate_node(node_id)
    }
}

/// A connected input socket is fed by a node of lower rank.
pub open spec fn input_rank(rank: spec_fn(usize) -> nat, input: InputView) -> nat {
    if input.connected == 0 {
        0
    } else {
        rank(input.connected)
    }
}

/// Whether a text of `len` characters can be repeated `count` times.
fn repeat_fits(len: usize, count: isize) -> (fits: bool)
    ensures
        fits == (len == 0 || (count >= 0 && len * count <= repeat_limit())),
{
    if len == 0 {
        return true;
    }
    if count < 0 {
        return false;
    }
    let c: u128 = count as u128;
    let l: u128 = len as u128;
    assert(c * l < 0x1_0000_0000_0000_0000_0000_0000_0000_0000) by (nonlinear_arith)
        requires
            c < 0x8000_0000_0000_0000,
            l < 0x1_0000_0000_0000_0000,
    ;
    let product = c * l;
    assert(product == count * len);
    assert(len * count == count * len) by (nonlinear_arith);
    product <= (isize::MAX as u128) / 4
}

/// A node whose socket has no value has no value.
proof fn lemma_no_value_from_socket(g: Graph, c: Map<usize, ValueView>, id: usize, k: int)
    requires
        g.contains_key(id),
        0 <= k < 2,
        k < g[id].inputs.len(),
        k == 1 ==> g[id].kind == MyNodeTemplate::RepeatString,
        !input_evaluates(g, c, g[id].inputs[k]),
    ensures
        !node_evaluates(g, c, id),
{
    assert forall|f: nat| #[trigger] eval_node(g, c, id, f) is None by {
        if f > 0 {
            assert(eval_input(g, c, g[id].inputs[k], (f - 1) as nat) is None);
        }
    }
}

/// The value of a new-number node is the integer its socket supplies.
proof fn lemma_number_node(g: Graph, c: Map<usize, ValueView>, id: usize)
    requires
        g.contains_key(id),
        g[id].kind == MyNodeTemplate::NewNumber,
        g[id].inputs.len() >= 1,
        input_evaluates(g, c, g[id].inputs[0]),
    ensures
        node_evaluates(g, c, id),
        node_value(g, c, id) == ValueView::Isize(as_isize(input_value(g, c, g[id].inputs[0]))),
{
    let input = g[id].inputs[0];
    let f = choose|f: nat| #[trigger] eval_input(g, c, input, f) is Some;
    lemma_input_depth(g, c, input, f);
    let d = input_depth(g, c, input);
    assert(eval_node(g, c, id, d + 1) == Some(ValueView::Isize(as_isize(input_value(g, c, input)))));
    lemma_node_depth(g, c, id, d + 1);
}

/// A repeat-string node has a value exactly when its sockets' values can be repeated, and
/// then the value is the repeated text.
proof fn lemma_repeat_node(g: Graph, c: Map<usize, ValueView>, id: usize)
    requires
        g.contains_key(id),
        g[id].kind == MyNodeTemplate::RepeatString,
        g[id].inputs.len() >= 2,
        input_evaluates(g, c, g[id].inputs[0]),
        input_evaluates(g, c, g[id].inputs[1]),
    ensures
        ({
            let r = repeat_result(
                as_text(input_value(g, c, g[id].inputs[0])),
                as_isize(input_value(g, c, g[id].inputs[1])),
            );
            &&& node_evaluates(g, c, id) <==> r is Some
            &&& r is Some ==> node_value(g, c, id) == r.unwrap()
        }),
{
    let first = g[id].inputs[0];
    let second = g[id].inputs[1];
    let r = repeat_result(as_text(input_value(g, c, first)), as_isize(input_value(g, c, second)));
    let fa = choose|f: nat| #[trigger] eval_input(g, c, first, f) is Some;
    let fb = choose|f: nat| #[trigger] eval_input(g, c, second, f) is Some;
    lemma_input_depth(g, c, first, fa);
    lemma_input_depth(g, c, second, fb);
    let m = if fa < fb {
        fb
    } else {
        fa
    };
    lemma_eval_input_more(g, c, first, fa, m);
    lemma_eval_input_more(g, c, second, fb, m);
    assert(eval_node(g, c, id, m + 1) == r);
    if r is Some {
        lemma_node_depth(g, c, id, m + 1);
    } else {
        assert forall|f: nat| #[trigger] eval_node(g, c, id, f) is None by {
            if f > 0 && eval_input(g, c, first, (f - 1) as nat) is Some && eval_input(
                g,
                c,
                second,
                (f - 1) as nat,
            ) is Some {
                lemma_input_depth(g, c, first, (f - 1) as nat);
                lemma_input_depth(g, c, second, (f - 1) as nat);
            }
        }
    }
}

/// A free socket supplies the value it holds.
pub proof fn law_free_socket_supplies_its_value(g: Graph, c: Map<usize, ValueView>, s: InputView)
    requires
        s.connected == 0,
    ensures
        input_evaluates(g, c, s),
        input_value(g, c, s) == s.value,
{
    assert(eval_input(g, c, s, 0) is Some);
    lemma_input_depth(g, c, s, 0);
}

/// A connected socket whose feeder has no cached value supplies exactly the value of the node
/// feeding it, whatever kind that node is: it supplies a value when, and only when, the feeder
/// has one.
pub proof fn law_socket_supplies_feeder_value(g: Graph, c: Map<usize, ValueView>, s: InputView)
    requires
        s.connected != 0,
        !c.contains_key(s.connected),
    ensures
        input_evaluates(g, c, s) <==> node_evaluates(g, c, s.connected),
        node_evaluates(g, c, s.connected) ==> input_value(g, c, s) == node_value(g, c, s.connected),
{
    assert forall|f: nat| #[trigger] eval_input(g, c, s, f) == eval_node(g, c, s.connected, f) by {}
    if node_evaluates(g, c, s.connected) {
        let f = choose|f: nat| #[trigger] eval_node(g, c, s.connected, f) is Some;
        assert(eval_input(g, c, s, f) is Some);
        lemma_input_depth(g, c, s, f);
        lemma_node_depth(g, c, s.connected, f);
    }
    if input_evaluates(g, c, s) {
        let f = choose|f: nat| #[trigger] eval_input(g, c, s, f) is Some;
        assert(eval_node(g, c, s.connected, f) is Some);
    }
}

/// A new-number node has a value exactly when its first socket supplies one, and its value is
/// the integer that socket supplies (0 for a text).
pub proof fn law_number_node_value(g: Graph, c: Map<usize, ValueView>, id: usize)
    requires
        g.contains_key(id),
        g[id].kind == MyNodeTemplate::NewNumber,
        g[id].inputs.len() >= 1,
    ensures
        node_evaluates(g, c, id) <==> input_evaluates(g, c, g[id].inputs[0]),
        node_evaluates(g, c, id) ==> node_value(g, c, id) == ValueView::Isize(
            as_isize(input_value(g, c, g[id].inputs[0])),
        ),
{
    if input_evaluates(g, c, g[id].inputs[0]) {
        lemma_number_node(g, c, id);
    } else {
        lemma_no_value_from_socket(g, c, id, 0);
    }
}

/// A repeat-string node has a value exactly when both its sockets supply one and the text can
/// be repeated the count: the text is empty, or the count is not negative and the repeated text
/// stays within the limit. Its value is then the text written the count times (the empty text
/// when the text is empty).
pub proof fn law_repeat_node_value(g: Graph, c: Map<usize, ValueView>, id: usize)
    requires
        g.contains_key(id),
        g[id].kind == MyNodeTemplate::RepeatString,
        g[id].inputs.len() >= 2,
    ensures
        ({
            let t = as_text(input_value(g, c, g[id].inputs[0]));
            let n = as_isize(input_value(g, c, g[id].inputs[1]));
            &&& node_evaluates(g, c, id) <==> (input_evaluates(g, c, g[id].inputs[0]) && input_evaluates(
                g,
                c,
                g[id].inputs[1],
            ) && (t.len() == 0 || (n >= 0 && t.len() * n <= repeat_limit())))
            &&& node_evaluates(g, c, id) && t.len() == 0 ==> node_value(g, c, id) == ValueView::Text(
                Seq::empty(),
            )
            &&& node_evaluates(g, c, id) && t.len() > 0 ==> node_value(g, c, id) == ValueView::Text(
                repeat_text(t, n as nat),
            )
        }),
{
    if !input_evaluates(g, c, g[id].inputs[0]) {
        lemma_no_value_from_socket(g, c, id, 0);
    } else if !input_evaluates(g, c, g[id].inputs[1]) {
        lemma_no_value_from_socket(g, c, id, 1);
    } else {
        lemma_repeat_node(g, c, id);
    }
}

impl Editor {
    /// The value of node `node_id` with no cached values, or `None` when it has none: a
    /// repeat count out of range, or a node without the sockets its kind reads.
    fn checked_node(&self, node_id: usize, Ghost(rank): Ghost<spec_fn(usize) -> nat>) -> (value: Option<
        MyValueType,
    >)
        requires
            ranked_by(self@.nodes, rank),
        ensures
            match value {
                Some(v) => node_evaluates(self@.nodes, Map::empty(), node_id) && v@ == node_value(
                    self@.nodes,
                    Map::empty(),
                    node_id,
                ),
                None => !node_evaluates(self@.nodes, Map::empty(), node_id),
            },
        decreases rank(node_id), 1nat,
    {
        let ghost g = self@.nodes;
        let ghost c = Map::<usize, ValueView>::empty();
        let node = match self.nodes.get(&node_id) {
            Some(node) => node,
            None => {
                assert forall|f: nat| #[trigger] eval_node(g, c, node_id, f) is None by {}
                return None;
            },
        };
        assert(node@ == g[node_id]);
        match node.node_type {
            MyNodeTemplate::NewNumber => {
                if node.inputs.len() < 1 {
                    assert forall|f: nat| #[trigger] eval_node(g, c, node_id, f) is None by {}
                    return None;
                }
                let input = &node.inputs[0];
                assert(input@ == g[node_id].inputs[0]);
                assert(input.connected_id != 0 ==> rank(input.connected_id) < rank(node_id));
                match self.checked_input(input, Ghost(rank)) {
                    Some(supplied) => {
                        proof {
                            lemma_number_node(g, c, node_id);
                        }
                        Some(MyValueType::Isize { value: supplied.try_to_isize() })
                    },
                    None => {
                        proof {
                            lemma_no_value_from_socket(g, c, node_id, 0);
                        }
                        None
                    },
                }
            },
            MyNodeTemplate::RepeatString => {
                if node.inputs.len() < 2 {
                    assert forall|f: nat| #[trigger] eval_node(g, c, node_id, f) is None by {}
                    return None;
                }
                let first = &node.inputs[0];
                let second = &node.inputs[1];
                assert(first@ == g[node_id].inputs[0]);
                assert(second@ == g[node_id].inputs[1]);
                assert(first.connected_id != 0 ==> rank(first.connected_id) < rank(node_id));
                assert(second.connected_id != 0 ==> rank(second.connected_id) < rank(node_id));
                let a = match self.checked_input(first, Ghost(rank)) {
                    Some(a) => a,
                    None => {
                        proof {
                            lemma_no_value_from_socket(g, c, node_id, 0);
                        }
                        return None;
                    },
                };
                let b = match self.checked_input(second, Ghost(rank)) {
                    Some(b) => b,
                    None => {
                        proof {
                            lemma_no_value_from_socket(g, c, node_id, 1);
                        }
                        return None;
                    },
                };
                let text = a.try_to_String();
                let count = b.try_to_isize();
                let len = text.as_str().unicode_len();
                proof {
                    lemma_repeat_node(g, c, node_id);
                }
                if !repeat_fits(len, count) {
                    return None;
                }
                let times: usize = #[verifier::truncate] (count as usize);
                proof {
                    if text@.len() == 0 {
                        lemma_repeat_empty(times as nat);
                        assert(text@ =~= Seq::<char>::empty());
                        assert(repeat_text(text@, times as nat) =~= Seq::<char>::empty());
                    } else {
                        assert(times == count);
                        assert(text@.len() * times <= repeat_limit());
                    }
                }
                let repeated = repeat_str(text.as_str(), times);
                Some(MyValueType::String { value: repeated })
            },
        }
    }

    /// The value an input socket supplies with no cached values, or `None` when it has none.
    fn checked_input(&self, input: &Input, Ghost(rank): Ghost<spec_fn(usize) -> nat>) -> (value: Option<
        MyValueType,
    >)
        requires
            ranked_by(self@.nodes, rank),
        ensures
            match value {
                Some(v) => input_evaluates(self@.nodes, Map::empty(), input@) && v@ == input_value(
                    self@.nodes,
                    Map::empty(),
                    input@,
                ),
                None => !input_evaluates(self@.nodes, Map::empty(), input@),
            },
        decreases input_rank(rank, input@), if input@.connected == 0 {
            0nat
        } else {
            2nat
        },
    {
        let ghost g = self@.nodes;
        let ghost c = Map::<usize, ValueView>::empty();
        if input.connected_id == 0 {
            proof {
                assert(eval_input(g, c, input@, 0) is Some);
                lemma_input_depth(g, c, input@, 0);
            }
            Some(input.value.clone())
        } else {
            let r = self.checked_node(input.connected_id, Ghost(rank));
            proof {
                match r {
                    Some(_) => {
                        let f = choose|f: nat| #[trigger] eval_node(g, c, input.connected_id, f) is Some;
                        lemma_node_depth(g, c, input.connected_id, f);
                        assert(eval_input(g, c, input@, f) == eval_node(g, c, input.connected_id, f));
                        lemma_input_depth(g, c, input@, f);
                    },
                    None => {
                        assert forall|f: nat| #[trigger] eval_input(g, c, input@, f) is None by {
                            assert(eval_input(g, c, input@, f) == eval_node(g, c, input.connected_id, f));
                        }
                    },
                }
            }
            r
        }
    }

    /// Empties the cache of node values and evaluates node `node_id`, or gives `None` when
    /// the node has no value: it is missing, a repeat count is negative or too large, or a
    /// node lacks the sockets its kind reads. In each such case `evaluate_node` could not run.
    pub fn try_evaluate_node(&mut self, node_id: usize) -> (value: Option<MyValueType>)
        requires
            old(self)@.wf(),
        ensures
            final(self)@ == (EditorView { cache: Map::empty(), ..old(self)@ }),
            match value {
                Some(v) => node_evaluates(old(self)@.nodes, Map::empty(), node_id) && v@ == node_value(
                    old(self)@.nodes,
                    Map::empty(),
                    node_id,
                ),
                None => !node_evaluates(old(self)@.nodes, Map::empty(), node_id),
            },
    {
        self.outputs_cache = HashMap::new();
        proof {
            assert(self@.cache =~= Map::<usize, ValueView>::empty());
            assert(self@.nodes == old(self)@.nodes);
        }
        let ghost rank = choose|rank: spec_fn(usize) -> nat| ranked_by(self@.nodes, rank);
        self.checked_node(node_id, Ghost(rank))
    }
}

/// Counting occurrences splits over a concatenation.
pub proof fn lemma_occurrences_concat(a: Seq<usize>, b: Seq<usize>, x: usize)
    ensures
        occurrences(a + b, x) == occurrences(a, x) + occurrences(b, x),
    decreases a.len(),
{
    if a.len() == 0 {
        assert(a + b =~= b);
    } else {
        lemma_occurrences_concat(a.skip(1), b, x);
        assert((a + b).skip(1) =~= a.skip(1) + b);
    }
}

pub proof fn lemma_occurrences_push(s: Seq<usize>, y: usize, x: usize)
    ensures
        occurrences(s.push(y), x) == occurrences(s, x) + if y == x {
            1nat
        } else {
            0nat
        },
{
    lemma_occurrences_concat(s, seq![y], x);
    assert(s.push(y) =~= s + seq![y]);
    assert(seq![y].skip(1) =~= Seq::<usize>::empty());
    assert(occurrences(Seq::<usize>::empty(), x) == 0);
    assert(occurrences(seq![y], x) == (if y == x {
        1nat
    } else {
        0nat
    }) + occurrences(seq![y].skip(1), x));
}

/// The graph after `connect_nodes`: connected when allowed, else unchanged.
pub open spec fn after_connect(g: Graph, from: usize, to: usize, input_index: int) -> Graph {
    if connection_allowed(g, from, to, input_index) {
        connected_graph(g, from, to, input_index)
    } else {
        g
    }
}

/// The graph after `remove_connection`: the socket is freed, and the node that fed it, if
/// any, drops its first listing of `to`.
pub open spec fn after_remove_connection(g: Graph, to: usize, input_index: int) -> Graph {
    let feeder = g[to].inputs[input_index].connected;
    if feeder == 0 {
        set_link(g, to, input_index, 0)
    } else {
        drop_target(set_link(g, to, input_index, 0), feeder, to)
    }
}

/// What the `con` command does to the graph: a free socket is connected, a socket fed by
/// `from` is disconnected, and a socket fed by another node is disconnected and then
/// connected to `from`.
pub open spec fn toggled_graph(g: Graph, from: usize, to: usize, input_index: int) -> Graph {
    let current = g[to].inputs[input_index].connected;
    if current == 0 {
        after_connect(g, from, to, input_index)
    } else if current == from {
        after_remove_connection(g, to, input_index)
    } else {
        after_connect(after_remove_connection(g, to, input_index), from, to, input_index)
    }
}

impl Editor {
    /// Moves node `node_id` to column `x`, row `y`.
    pub fn set_position(&mut self, node_id: usize, x: usize, y: usize)
        requires
            old(self)@.nodes.contains_key(node_id),
        ensures
            final(self)@ == (EditorView {
                nodes: old(self)@.nodes.insert(node_id, NodeView { x: x, y: y, ..old(self)@.nodes[node_id] }),
                ..old(self)@
            }),
    {
        let mut node = self.nodes.remove(&node_id).unwrap();
        node.x = x;
        node.y = y;
        self.nodes.insert(node_id, node);
        proof {
            assert(self@.nodes =~= old(self)@.nodes.insert(
                node_id,
                NodeView { x: x, y: y, ..old(self)@.nodes[node_id] },
            ));
        }
    }

    /// Sets the value of input `input_index` of node `node_id` from `text`, read as a value of
    /// the socket's current data type.
    pub fn set_input_value(&mut self, node_id: usize, input_index: usize, text: &str)
        requires
            old(self)@.nodes.contains_key(node_id),
            input_index < old(self)@.nodes[node_id].inputs.len(),
        ensures
            final(self)@ == (EditorView {
                nodes: old(self)@.nodes.insert(
                    node_id,
                    NodeView {
                        inputs: old(self)@.nodes[node_id].inputs.update(
                            input_index as int,
                            InputView {
                                value: parsed_value(old(self)@.nodes[node_id].inputs[input_index as int].value, text@),
                                ..old(self)@.nodes[node_id].inputs[input_index as int]
                            },
                        ),
                        ..old(self)@.nodes[node_id]
                    },
                ),
                ..old(self)@
            }),
    {
        let mut node = self.nodes.remove(&node_id).unwrap();
        let ghost before = node@;
        let parsed = node.inputs[input_index].value.parse_value(text);
        node.inputs[input_index].value = parsed;
        proof {
            assert(input_views(node.inputs@) =~= before.inputs.update(
                input_index as int,
                InputView {
                    value: parsed_value(before.inputs[input_index as int].value, text@),
                    ..before.inputs[input_index as int]
                },
            ));
        }
        self.nodes.insert(node_id, node);
        proof {
            assert(self@.nodes =~= old(self)@.nodes.insert(
                node_id,
                NodeView {
                    inputs: before.inputs.update(
                        input_index as int,
                        InputView {
                            value: parsed_value(before.inputs[input_index as int].value, text@),
                            ..before.inputs[input_index as int]
                        },
                    ),
                    ..before
                },
            ));
        }
    }

    /// The id feeding input `input_index` of node `node_id`, or 0.
    fn connection_of(&self, node_id: usize, input_index: usize) -> (id: usize)
        requires
            self@.nodes.contains_key(node_id),
            input_index < self@.nodes[node_id].inputs.len(),
        ensures
            id == self@.nodes[node_id].inputs[input_index as int].connected,
    {
        let node = self.nodes.get(&node_id).unwrap();
        assert(node.inputs@[input_index as int]@ == self@.nodes[node_id].inputs[input_index as int]);
        node.inputs[input_index].connected_id
    }

    /// The `con` command: connects a free socket, disconnects a socket fed by `from_node_id`,
    /// and reconnects a socket fed by another node to `from_node_id`.
    pub fn toggle_connection(&mut self, from_node_id: usize, to_node_id: usize, input_index: usize)
        requires
            links_closed(old(self)@.nodes),
            old(self)@.nodes.contains_key(to_node_id),
            input_index < old(self)@.nodes[to_node_id].inputs.len(),
            old(self)@.nodes[to_node_id].inputs[input_index as int].connected != from_node_id
                || from_node_id == 0 ==> old(self)@.nodes.contains_key(from_node_id),
        ensures
            final(self)@ == (EditorView {
                nodes: toggled_graph(old(self)@.nodes, from_node_id, to_node_id, input_index as int),
                ..old(self)@
            }),
    {
        let current = self.connection_of(to_node_id, input_index);
        if current == 0 {
            self.connect_nodes(from_node_id, to_node_id, input_index);
        } else if current == from_node_id {
            self.remove_connection(to_node_id, input_index);
        } else {
            self.remove_connection(to_node_id, input_index);
            proof {
                let g = old(self)@.nodes;
                let g2 = self@.nodes;
                assert(g2.dom() =~= g.dom());
                assert(g2.contains_key(from_node_id));
                assert forall|k: usize, i: int|
                    g2.contains_key(k) && 0 <= i < g2[k].inputs.len() && (#[trigger] g2[k].inputs[i]).connected
                        != 0 implies g2.contains_key(g2[k].inputs[i].connected) by {
                    if !(k == to_node_id && i == input_index) {
                        assert(g2[k].inputs[i] == g[k].inputs[i]);
                    }
                }
            }
            self.connect_nodes(from_node_id, to_node_id, input_index);
        }
    }

    /// Adds a node of the kind offered under `title`, placed at column 2, row 2; does nothing
    /// when no kind is offered under that title.
    pub fn add_node_by_title(&mut self, title: &str)
        requires
            template_named(title@) is Some ==> old(self)@.current_id < usize::MAX,
        ensures
            final(self)@ == match template_named(title@) {
                Some(t) => EditorView {
                    nodes: old(self)@.nodes.insert(
                        (old(self)@.current_id + 1) as usize,
                        NodeView { id: (old(self)@.current_id + 1) as usize, x: 2, y: 2, ..template_node(t) },
                    ),
                    current_id: (old(self)@.current_id + 1) as usize,
                    ..old(self)@
                },
                None => old(self)@,
            },
    {
        if let Some(template) = MyNodeTemplate::get_node_by_title(title) {
            let mut node = template.new();
            node.x = 2;
            node.y = 2;
            self.add_node(node);
        }
    }
}

impl Input {
    /// An input socket with the given parts, as read back from a saved editor.
    pub fn from_parts(
        connected_id: usize,
        input_type: MyDataType,
        color: [u8; 3],
        label: String,
        value: MyValueType,
    ) -> (input: Self)
        ensures
            input@ == (InputView {
                connected: connected_id,
                data_type: input_type,
                rgb: color@,
                label: label@,
                value: value@,
            }),
            input.held() == value,
    {
        Input { connected_id, input_type, color, label, value }
    }

    /// The id of the node feeding this socket, or 0.
    pub fn get_connected_id(&self) -> (id: usize)
        ensures
            id == self@.connected,
    {
        self.connected_id
    }

    pub fn get_input_type(&self) -> (t: MyDataType)
        ensures
            t == self@.data_type,
    {
        self.input_type
    }

    pub fn get_color(&self) -> (rgb: [u8; 3])
        ensures
            rgb@ == self@.rgb,
    {
        self.color
    }

    pub fn get_label(&self) -> (label: &str)
        ensures
            label@ == self@.label,
    {
        self.label.as_str()
    }
}

impl Output {
    /// An output socket with the given parts, as read back from a saved editor.
    pub fn from_parts(connected_ids: Vec<usize>, output_type: MyDataType, color: [u8; 3]) -> (output: Self)
        ensures
            output@ == (OutputView { targets: connected_ids@, data_type: output_type, rgb: color@ }),
    {
        Output { connected_ids, output_type, color }
    }

    /// The ids of the nodes this output was connected to.
    pub fn get_connected_ids(&self) -> (ids: &Vec<usize>)
        ensures
            ids@ == self@.targets,
    {
        &self.connected_ids
    }

    pub fn get_output_type(&self) -> (t: MyDataType)
        ensures
            t == self@.data_type,
    {
        self.output_type
    }

    pub fn get_color(&self) -> (rgb: [u8; 3])
        ensures
            rgb@ == self@.rgb,
    {
        self.color
    }
}

impl Node {
    /// A node with the given parts, as read back from a saved editor.
    pub fn from_parts(
        id: usize,
        title: String,
        node_type: MyNodeTemplate,
        inputs: Vec<Input>,
        output: Output,
        x: usize,
        y: usize,
        w: usize,
    ) -> (node: Self)
        ensures
            node@ == (NodeView {
                id: id,
                title: title@,
                kind: node_type,
                inputs: input_views(inputs@),
                output: output@,
                x: x,
                y: y,
                w: w,
            }),
    {
        Node { id, title, node_type, inputs, output, x, y, w }
    }

    pub fn get_id(&self) -> (id: usize)
        ensures
            id == self@.id,
    {
        self.id
    }

    pub fn get_title(&self) -> (title: &str)
        ensures
            title@ == self@.title,
    {
        self.title.as_str()
    }

    pub fn get_node_type(&self) -> (t: MyNodeTemplate)
        ensures
            t == self@.kind,
    {
        self.node_type
    }

    pub fn get_output(&self) -> (output: &Output)
        ensures
            output@ == self@.output,
    {
        &self.output
    }

    /// The input socket at `index`.
    pub fn get_input(&self, index: usize) -> (input: &Input)
        requires
            index < self@.inputs.len(),
        ensures
            input@ == self@.inputs[index as int],
    {
        &self.inputs[index]
    }

    pub fn get_x(&self) -> (x: usize)
        ensures
            x == self@.x,
    {
        self.x
    }

    pub fn get_y(&self) -> (y: usize)
        ensures
            y == self@.y,
    {
        self.y
    }

    pub fn input_count(&self) -> (n: usize)
        ensures
            n == self@.inputs.len(),
    {
        self.inputs.len()
    }
}

impl Editor {
    /// An editor with the given parts, as read back from a saved editor.
    pub fn from_parts(
        nodes: HashMap<usize, Node>,
        outputs_cache: HashMap<usize, MyValueType>,
        current_id: usize,
        auto_save: bool,
        w: usize,
        h: usize,
    ) -> (editor: Self)
        ensures
            editor@ == (EditorView {
                nodes: nodes@.map_values(|n: Node| n@),
                cache: outputs_cache@.map_values(|v: MyValueType| v@),
                current_id: current_id,
                auto_save: auto_save,
                w: w,
                h: h,
            }),
    {
        Editor { nodes, outputs_cache, current_id, auto_save, w, h }
    }

    /// The nodes by id.
    pub fn get_nodes(&self) -> (nodes: &HashMap<usize, Node>)
        ensures
            nodes@.map_values(|n: Node| n@) == self@.nodes,
    {
        &self.nodes
    }

    /// The cached node values by id.
    pub fn get_outputs_cache(&self) -> (cache: &HashMap<usize, MyValueType>)
        ensures
            cache@.map_values(|v: MyValueType| v@) == self@.cache,
    {
        &self.outputs_cache
    }

    /// The node with id `node_id`, if any.
    pub fn get_node(&self, node_id: usize) -> (node: Option<&Node>)
        ensures
            match node {
                Some(n) => self@.nodes.contains_key(node_id) && n@ == self@.nodes[node_id],
                None => !self@.nodes.contains_key(node_id),
            },
    {
        self.nodes.get(&node_id)
    }

    /// The ids of the nodes, in increasing order, among those given out so far.
    pub fn node_ids(&self) -> (ids: Vec<usize>)
        ensures
            forall|k: usize| ids@.contains(k) <==> (1 <= k <= self@.current_id && self@.nodes.contains_key(k)),
            forall|i: int, j: int| 0 <= i < j < ids@.len() ==> ids@[i] < ids@[j],
    {
        let mut ids: Vec<usize> = Vec::new();
        let mut k: usize = 0;
        while k < self.current_id
            invariant
                k <= self.current_id,
                forall|m: usize| ids@.contains(m) <==> (1 <= m <= k && self@.nodes.contains_key(m)),
                forall|i: int, j: int| 0 <= i < j < ids@.len() ==> ids@[i] < ids@[j],
                forall|i: int| 0 <= i < ids@.len() ==> ids@[i] <= k,
            decreases self.current_id - k,
        {
            k += 1;
            assert(self@.nodes.dom() =~= self.nodes@.dom());
            if self.nodes.contains_key(&k) {
                let ghost before = ids@;
                ids.push(k);
                proof {
                    assert forall|m: usize| ids@.contains(m) <==> (1 <= m <= k && self@.nodes.contains_key(m)) by {
                        if ids@.contains(m) {
                            let i = choose|i: int| 0 <= i < ids@.len() && ids@[i] == m;
                            if i < before.len() {
                                assert(before[i] == m);
                                assert(before.contains(m));
                            } else {
                                assert(m == k);
                                assert(self.nodes@.contains_key(k));
                            }
                        }
                        if 1 <= m <= k && self@.nodes.contains_key(m) {
                            if m < k {
                                assert(before.contains(m));
                                let i = choose|i: int| 0 <= i < before.len() && before[i] == m;
                                assert(ids@[i] == m);
                            } else {
                                assert(ids@[before.len() as int] == m);
                            }
                        }
                    }
                }
            } else {
                assert forall|m: usize| ids@.contains(m) <==> (1 <= m <= k && self@.nodes.contains_key(m)) by {
                    if ids@.contains(m) {
                        let i = choose|i: int| 0 <= i < ids@.len() && ids@[i] == m;
                    }
                }
            }
        }
        ids
    }

    /// The last id given out.
    pub fn get_current_id(&self) -> (id: usize)
        ensures
            id == self@.current_id,
    {
        self.current_id
    }

    /// The width of the drawing area.
    pub fn get_w(&self) -> (w: usize)
        ensures
            w == self@.w,
    {
        self.w
    }

    /// The height of the drawing area.
    pub fn get_h(&self) -> (h: usize)
        ensures
            h == self@.h,
    {
        self.h
    }

    /// Sets the size of the drawing area.
    pub fn set_size(&mut self, w: usize, h: usize)
        ensures
            final(self)@ == (EditorView { w: w, h: h, ..old(self)@ }),
    {
        self.w = w;
        self.h = h;
    }
}

} // verus!
