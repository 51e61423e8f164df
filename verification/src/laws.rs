//! Properties that hold across the editor's operations.
use vstd::prelude::*;

use crate::editor::{
    acyclic, clear_links, connected_graph, connection_allowed, depends_on, feeds, ids_bounded,
    ids_recorded, lemma_occurrences_concat, lemma_occurrences_push, links_closed, links_to,
    loop_free, occurrences, outputs_cover, path_step, push_target, ranked_by, remove_first,
    set_link, upstream_path, without, EditorView, Graph, InputView, NodeView, drop_target,
    unlisted_by, cut_by, link_ids, disconnected_graph, eval_node, eval_input,
    lemma_eval_node_more, lemma_node_depth, node_depth, node_evaluates,
};
use crate::command::{command_allowed, state_after, CommandView};
use crate::editor::{after_connect, after_remove_connection, toggled_graph};
use crate::template::{template_named, template_node, MyNodeTemplate};
use crate::value::ValueView;

verus! {

/// Node `y` is in the graph and has at least one input socket.
pub open spec fn has_inputs(g: Graph, y: usize) -> bool {
    g.contains_key(y) && g[y].inputs.len() > 0
}

proof fn lemma_push_contains(s: Seq<usize>, x: usize, y: usize)
    ensures
        s.push(x).contains(y) == (s.contains(y) || y == x),
{
    if s.push(x).contains(y) {
        let m = choose|m: int| 0 <= m < s.push(x).len() && s.push(x)[m] == y;
        if m < s.len() {
            assert(s[m] == y);
        }
    }
    if s.contains(y) {
        let m = choose|m: int| 0 <= m < s.len() && s[m] == y;
        assert(s.push(x)[m] == y);
    }
    if y == x {
        assert(s.push(x)[s.len() as int] == y);
    }
}

/// The tail of an upstream path is an upstream path.
proof fn lemma_path_tail(g: Graph, p: Seq<usize>)
    requires
        upstream_path(g, p),
        p.len() > 1,
    ensures
        upstream_path(g, p.skip(1)),
        path_step(g, p, 0),
{
    let q = p.skip(1);
    assert forall|j: int| 0 <= j < q.len() - 1 implies #[trigger] path_step(g, q, j) by {
        assert(path_step(g, p, j + 1));
        assert(q[j] == p[j + 1] && q[j + 1] == p[j + 2]);
    }
    assert(path_step(g, p, 0));
}

/// A node feeding the first node of an upstream path extends it.
proof fn lemma_path_prepend(g: Graph, k: usize, p: Seq<usize>)
    requires
        upstream_path(g, p),
        g.contains_key(k),
        feeds(g, k, p[0]),
    ensures
        upstream_path(g, seq![k] + p),
        (seq![k] + p)[0] == k,
        (seq![k] + p).last() == p.last(),
{
    let q = seq![k] + p;
    assert forall|j: int| 0 <= j < q.len() - 1 implies #[trigger] path_step(g, q, j) by {
        if j == 0 {
            assert(q[0] == k && q[1] == p[0]);
        } else {
            assert(path_step(g, p, j - 1));
            assert(q[j] == p[j - 1] && q[j + 1] == p[j]);
        }
    }
}

/// Ranks fall along an upstream path.
proof fn lemma_path_rank(g: Graph, rank: spec_fn(usize) -> nat, p: Seq<usize>)
    requires
        ranked_by(g, rank),
        upstream_path(g, p),
    ensures
        rank(p.last()) <= rank(p[0]),
        p.len() > 1 ==> rank(p.last()) < rank(p[0]),
    decreases p.len(),
{
    if p.len() > 1 {
        lemma_path_tail(g, p);
        lemma_path_rank(g, rank, p.skip(1));
        let i = choose|i: int| 0 <= i < g[p[0]].inputs.len() && #[trigger] g[p[0]].inputs[i].connected == p[1];
        assert(g[p[0]].inputs[i].connected != 0);
        assert(p.skip(1).last() == p.last());
    }
}

/// Node `a` depends on itself.
pub proof fn lemma_depends_self(g: Graph, a: usize)
    ensures
        depends_on(g, a, a),
{
    let p = seq![a];
    assert(upstream_path(g, p));
}

/// A node feeding `k` that depends on `b` makes `k` depend on `b`.
pub proof fn lemma_depends_through(g: Graph, k: usize, c: usize, b: usize)
    requires
        g.contains_key(k),
        feeds(g, k, c),
        depends_on(g, c, b),
    ensures
        depends_on(g, k, b),
{
    let p = choose|p: Seq<usize>| #[trigger] upstream_path(g, p) && p[0] == c && p.last() == b;
    lemma_path_prepend(g, k, p);
}

/// When the check passes, no node with inputs upstream of `from` was already passed.
proof fn lemma_loop_free_avoids(g: Graph, from: usize, to: usize, passed: Seq<usize>, p: Seq<usize>)
    requires
        loop_free(g, from, to, passed),
        upstream_path(g, p),
        p[0] == from,
        has_inputs(g, p.last()),
    ensures
        !passed.push(to).contains(p.last()),
    decreases p.len(),
{
    let p2 = passed.push(to);
    if p.len() == 1 {
    } else {
        lemma_path_tail(g, p);
        let c = p[1];
        let i = choose|i: int| 0 <= i < g[from].inputs.len() && #[trigger] g[from].inputs[i].connected == c;
        assert(g[from].inputs.len() > 0);
        assert(g[from].inputs[i].connected == 0 || loop_free(g, g[from].inputs[i].connected, from, p2));
        lemma_loop_free_avoids(g, c, from, p2, p.skip(1));
        lemma_push_contains(p2, from, p.last());
    }
}

/// The check passes when no node with inputs that `from` depends on was already passed.
proof fn lemma_loop_free_holds(
    g: Graph,
    rank: spec_fn(usize) -> nat,
    from: usize,
    to: usize,
    passed: Seq<usize>,
)
    requires
        ranked_by(g, rank),
        links_closed(g),
        g.dom().finite(),
        g.contains_key(from),
        forall|y: usize|
            #[trigger] depends_on(g, from, y) && has_inputs(g, y) ==> !passed.push(to).contains(y),
    ensures
        loop_free(g, from, to, passed),
    decreases rank(from),
{
    let p2 = passed.push(to);
    let ins = g[from].inputs;
    if ins.len() > 0 {
        lemma_depends_self(g, from);
        assert forall|i: int| 0 <= i < ins.len() implies (#[trigger] ins[i]).connected == 0
            || loop_free(g, ins[i].connected, from, p2) by {
            let c = ins[i].connected;
            if c != 0 {
                assert(g.contains_key(c));
                assert(rank(c) < rank(from));
                assert(feeds(g, from, c));
                assert forall|y: usize| #[trigger] depends_on(g, c, y) && has_inputs(g, y) implies !p2.push(
                    from,
                ).contains(y) by {
                    lemma_depends_through(g, from, c, y);
                    lemma_push_contains(p2, from, y);
                    if y == from {
                        let p = choose|p: Seq<usize>| #[trigger] upstream_path(g, p) && p[0] == c && p.last() == y;
                        lemma_path_rank(g, rank, p);
                    }
                }
                lemma_loop_free_holds(g, rank, c, from, p2);
            }
        }
    }
}

/// The check made before connecting refuses exactly the connections that would close a loop:
/// in a graph without loops it passes unless `to` has input sockets and `from` depends on it.
pub proof fn law_check_refuses_exactly_loops(g: Graph, from: usize, to: usize)
    requires
        links_closed(g),
        crate::editor::acyclic(g),
        g.dom().finite(),
        g.contains_key(from),
    ensures
        loop_free(g, from, to, Seq::empty()) <==> !(has_inputs(g, to) && depends_on(g, from, to)),
{
    let rank = choose|rank: spec_fn(usize) -> nat| ranked_by(g, rank);
    let empty = Seq::<usize>::empty();
    if has_inputs(g, to) && depends_on(g, from, to) {
        if loop_free(g, from, to, empty) {
            let p = choose|p: Seq<usize>| #[trigger] upstream_path(g, p) && p[0] == from && p.last() == to;
            lemma_loop_free_avoids(g, from, to, empty, p);
            assert(empty.push(to)[0] == to);
        }
    } else {
        assert forall|y: usize| #[trigger] depends_on(g, from, y) && has_inputs(g, y) implies !empty.push(
            to,
        ).contains(y) by {
            lemma_push_contains(empty, to, y);
        }
        lemma_loop_free_holds(g, rank, from, to, empty);
    }
}

proof fn lemma_links_concat(a: Seq<InputView>, b: Seq<InputView>, n: usize)
    ensures
        links_to(a + b, n) == links_to(a, n) + links_to(b, n),
    decreases a.len(),
{
    if a.len() == 0 {
        assert(a + b =~= b);
    } else {
        lemma_links_concat(a.skip(1), b, n);
        assert((a + b).skip(1) =~= a.skip(1) + b);
    }
}

proof fn lemma_links_single(x: InputView, n: usize)
    ensures
        links_to(seq![x], n) == if x.connected == n {
            1nat
        } else {
            0nat
        },
{
    assert(seq![x].skip(1) =~= Seq::<InputView>::empty());
    assert(links_to(Seq::<InputView>::empty(), n) == 0);
}

/// Replacing one socket changes the count by what leaves and what comes.
proof fn lemma_links_update(s: Seq<InputView>, i: int, v: InputView, n: usize)
    requires
        0 <= i < s.len(),
    ensures
        links_to(s.update(i, v), n) + (if s[i].connected == n {
            1nat
        } else {
            0nat
        }) == links_to(s, n) + if v.connected == n {
            1nat
        } else {
            0nat
        },
{
    let pre = s.take(i);
    let post = s.skip(i + 1);
    assert(s =~= pre + seq![s[i]] + post);
    assert(s.update(i, v) =~= pre + seq![v] + post);
    lemma_links_concat(pre + seq![s[i]], post, n);
    lemma_links_concat(pre, seq![s[i]], n);
    lemma_links_concat(pre + seq![v], post, n);
    lemma_links_concat(pre, seq![v], n);
    lemma_links_single(s[i], n);
    lemma_links_single(v, n);
}

/// No socket is fed by `n` exactly when the count is zero.
proof fn lemma_links_zero(s: Seq<InputView>, n: usize)
    ensures
        (links_to(s, n) == 0) <==> (forall|i: int| 0 <= i < s.len() ==> #[trigger] s[i].connected != n),
    decreases s.len(),
{
    if s.len() > 0 {
        lemma_links_zero(s.skip(1), n);
        if links_to(s, n) == 0 {
            assert forall|i: int| 0 <= i < s.len() implies #[trigger] s[i].connected != n by {
                if i > 0 {
                    assert(s.skip(1)[i - 1] == s[i]);
                }
            }
        }
        if forall|i: int| 0 <= i < s.len() ==> #[trigger] s[i].connected != n {
            assert forall|i: int| 0 <= i < s.skip(1).len() implies #[trigger] s.skip(1)[i].connected != n by {
                assert(s.skip(1)[i] == s[i + 1]);
            }
        }
    }
}

/// Freeing sockets leaves each socket as it was or free.
proof fn lemma_clear_links_entries(s: Seq<InputView>, n: usize, count: nat)
    ensures
        clear_links(s, n, count).len() == s.len(),
        forall|i: int|
            0 <= i < s.len() ==> (#[trigger] clear_links(s, n, count)[i]).connected == s[i].connected
                || clear_links(s, n, count)[i].connected == 0,
    decreases s.len(),
{
    if s.len() > 0 {
        let c1 = if count > 0 && s[0].connected == n {
            (count - 1) as nat
        } else {
            count
        };
        lemma_clear_links_entries(s.skip(1), n, c1);
        let r = clear_links(s, n, count);
        assert forall|i: int| 0 <= i < s.len() implies (#[trigger] r[i]).connected == s[i].connected
            || r[i].connected == 0 by {
            if i > 0 {
                assert(r[i] == clear_links(s.skip(1), n, c1)[i - 1]);
                assert(s.skip(1)[i - 1] == s[i]);
            }
        }
    }
}

/// Freeing at least as many sockets as `n` feeds leaves none fed by `n`.
proof fn lemma_clear_links_all(s: Seq<InputView>, n: usize, count: nat)
    requires
        n != 0,
        links_to(s, n) <= count,
    ensures
        forall|i: int| 0 <= i < s.len() ==> (#[trigger] clear_links(s, n, count)[i]).connected != n,
    decreases s.len(),
{
    if s.len() > 0 {
        let c1 = if count > 0 && s[0].connected == n {
            (count - 1) as nat
        } else {
            count
        };
        lemma_clear_links_all(s.skip(1), n, c1);
        lemma_clear_links_entries(s.skip(1), n, c1);
        let r = clear_links(s, n, count);
        assert forall|i: int| 0 <= i < s.len() implies (#[trigger] r[i]).connected != n by {
            if i > 0 {
                assert(r[i] == clear_links(s.skip(1), n, c1)[i - 1]);
            }
        }
    }
}

/// Freeing sockets fed by `n` keeps the count of sockets fed by any other node.
proof fn lemma_clear_links_other(s: Seq<InputView>, n: usize, count: nat, m: usize)
    requires
        m != n,
        m != 0,
    ensures
        links_to(clear_links(s, n, count), m) == links_to(s, m),
    decreases s.len(),
{
    if s.len() > 0 {
        let c1 = if count > 0 && s[0].connected == n {
            (count - 1) as nat
        } else {
            count
        };
        lemma_clear_links_other(s.skip(1), n, c1, m);
        let r = clear_links(s, n, count);
        assert(r.skip(1) =~= clear_links(s.skip(1), n, c1));
    }
}

proof fn lemma_without_occurrences(s: Seq<usize>, t: usize, x: usize)
    requires
        x != t,
    ensures
        occurrences(without(s, t), x) == occurrences(s, x),
    decreases s.len(),
{
    if s.len() > 0 {
        lemma_without_occurrences(s.drop_last(), t, x);
        assert(s =~= s.drop_last().push(s.last()));
        lemma_occurrences_push(s.drop_last(), s.last(), x);
        if s.last() != t {
            lemma_occurrences_push(without(s.drop_last(), t), s.last(), x);
        }
    }
}

proof fn lemma_remove_first_occurrences(s: Seq<usize>, t: usize, x: usize)
    requires
        x != t,
    ensures
        occurrences(remove_first(s, t), x) == occurrences(s, x),
    decreases s.len(),
{
    if s.len() > 0 && s[0] != t {
        lemma_remove_first_occurrences(s.skip(1), t, x);
        lemma_occurrences_concat(seq![s[0]], remove_first(s.skip(1), t), x);
        assert(seq![s[0]].skip(1) =~= Seq::<usize>::empty());
        assert(occurrences(Seq::<usize>::empty(), x) == 0);
    }
}

/// An element occurs exactly when it is contained.
proof fn lemma_occurrences_zero(s: Seq<usize>, x: usize)
    ensures
        (occurrences(s, x) == 0) <==> !s.contains(x),
    decreases s.len(),
{
    if s.len() > 0 {
        lemma_occurrences_zero(s.skip(1), x);
        if s.skip(1).contains(x) {
            let j = choose|j: int| 0 <= j < s.skip(1).len() && s.skip(1)[j] == x;
            assert(s[j + 1] == x);
        }
        if s.contains(x) && s[0] != x {
            let j = choose|j: int| 0 <= j < s.len() && s[j] == x;
            assert(s.skip(1)[j - 1] == x);
        }
    }
}

/// Removing the first occurrence of a contained element lowers its count by one.
proof fn lemma_remove_first_hit(s: Seq<usize>, t: usize)
    requires
        s.contains(t),
    ensures
        occurrences(remove_first(s, t), t) + 1 == occurrences(s, t),
    decreases s.len(),
{
    if s[0] != t {
        let j = choose|j: int| 0 <= j < s.len() && s[j] == t;
        assert(s.skip(1)[j - 1] == t);
        lemma_remove_first_hit(s.skip(1), t);
        lemma_occurrences_concat(seq![s[0]], remove_first(s.skip(1), t), t);
        assert(seq![s[0]].skip(1) =~= Seq::<usize>::empty());
        assert(occurrences(Seq::<usize>::empty(), t) == 0);
    }
}

/// An element of `remove_first(s, t)` is an element of `s`.
proof fn lemma_remove_first_member(s: Seq<usize>, t: usize, j: int)
    requires
        0 <= j < remove_first(s, t).len(),
    ensures
        s.contains(remove_first(s, t)[j]),
    decreases s.len(),
{
    if s[0] == t {
        assert(s[j + 1] == remove_first(s, t)[j]);
    } else if j == 0 {
        assert(s[0] == remove_first(s, t)[0]);
    } else {
        lemma_remove_first_member(s.skip(1), t, j - 1);
        let k = choose|k: int| 0 <= k < s.skip(1).len() && s.skip(1)[k] == remove_first(s.skip(1), t)[j - 1];
        assert(s[k + 1] == remove_first(s, t)[j]);
    }
}

/// `without(s, t)` holds no `t`.
proof fn lemma_without_drops(s: Seq<usize>, t: usize)
    ensures
        !without(s, t).contains(t),
    decreases s.len(),
{
    if s.len() > 0 {
        lemma_without_drops(s.drop_last(), t);
        let w = without(s.drop_last(), t);
        if s.last() != t {
            if w.push(s.last()).contains(t) {
                let j = choose|j: int| 0 <= j < w.push(s.last()).len() && w.push(s.last())[j] == t;
                assert(w[j] == t);
            }
        }
    }
}

/// Adding a node made by a template (no socket connected, output feeding nothing) keeps the
/// editor well formed, and the id it gets is new.
pub proof fn law_add_node_keeps_wf(e: EditorView, node: NodeView)
    requires
        e.wf(),
        e.current_id < usize::MAX,
        node.is_detached(),
    ensures
        !e.nodes.contains_key((e.current_id + 1) as usize),
        (EditorView {
            nodes: e.nodes.insert(
                (e.current_id + 1) as usize,
                NodeView { id: (e.current_id + 1) as usize, ..node },
            ),
            current_id: (e.current_id + 1) as usize,
            ..e
        }).wf(),
{
    let k = (e.current_id + 1) as usize;
    let g = e.nodes;
    let v = NodeView { id: k, ..node };
    let g2 = g.insert(k, v);
    let rank = choose|rank: spec_fn(usize) -> nat| ranked_by(g, rank);
    assert(!g.contains_key(k));
    assert(ranked_by(g2, rank));
    assert forall|n: usize, x: usize| g2.contains_key(n) && g2.contains_key(x) implies #[trigger] links_to(
        g2[x].inputs,
        n,
    ) == occurrences(g2[n].output.targets, x) by {
        if x == k {
            lemma_links_zero(v.inputs, n);
            lemma_occurrences_zero(g2[n].output.targets, k);
            if n != k && g[n].output.targets.contains(k) {
                let j = choose|j: int| 0 <= j < g[n].output.targets.len() && g[n].output.targets[j] == k;
                assert(g.contains_key(g[n].output.targets[j]));
            }
        } else if n == k {
            lemma_links_zero(g[x].inputs, n);
            assert forall|i: int| 0 <= i < g[x].inputs.len() implies #[trigger] g[x].inputs[i].connected != k by {
                if g[x].inputs[i].connected == k {
                    assert(g.contains_key(g[x].inputs[i].connected));
                }
            }
            lemma_occurrences_zero(v.output.targets, x);
        } else {
            assert(links_to(g[x].inputs, n) == occurrences(g[n].output.targets, x));
        }
    }
}

/// `connect_nodes` connects exactly when the connection closes no loop and the data types
/// match: in a graph without loops whose links point at nodes of the graph, node `from` is
/// connected to socket `input_index` of node `to` unless `from` depends on `to` (which covers
/// `from == to`) or the output of `from` carries another data type than the socket. Connecting
/// makes the socket fed by `from`, adds one listing of `to` to the output of `from`, and
/// changes no other socket.
pub proof fn law_connect_nodes_decides(g: Graph, from: usize, to: usize, input_index: int)
    requires
        links_closed(g),
        crate::editor::acyclic(g),
        g.dom().finite(),
        g.contains_key(from),
        g.contains_key(to),
        0 <= input_index < g[to].inputs.len(),
    ensures
        connection_allowed(g, from, to, input_index) <==> (!depends_on(g, from, to)
            && g[from].output.data_type == g[to].inputs[input_index].data_type),
        ({
            let g2 = connected_graph(g, from, to, input_index);
            &&& g2.dom() == g.dom()
            &&& g2[to].inputs.len() == g[to].inputs.len()
            &&& g2[to].inputs[input_index].connected == from
            &&& g2[from].output.targets == g[from].output.targets.push(to)
            &&& forall|k: usize, j: int|
                g2.contains_key(k) && 0 <= j < g2[k].inputs.len() && !(k == to && j == input_index) ==> (
                #[trigger] g2[k].inputs[j]) == g[k].inputs[j]
            &&& forall|k: usize| #[trigger] g2.contains_key(k) && k != from ==> g2[k].output == g[k].output
        }),
{
    law_check_refuses_exactly_loops(g, from, to);
    assert(has_inputs(g, to));
    let g2 = connected_graph(g, from, to, input_index);
    assert(g2.dom() =~= g.dom());
}

/// Connecting closes no loop: in a graph without loops whose connected sockets are fed by
/// nodes of the graph, the graph after `connect_nodes` still has no loop.
pub proof fn law_connect_keeps_loops_out(g: Graph, from: usize, to: usize, input_index: int)
    requires
        links_closed(g),
        acyclic(g),
        g.dom().finite(),
        g.contains_key(from),
        g.contains_key(to),
        0 <= input_index < g[to].inputs.len(),
    ensures
        acyclic(after_connect(g, from, to, input_index)),
{
    if connection_allowed(g, from, to, input_index) {
        let g2 = connected_graph(g, from, to, input_index);
        law_check_refuses_exactly_loops(g, from, to);
        assert(has_inputs(g, to));
        assert(!depends_on(g, from, to));
        lemma_depends_self(g, from);
        assert(from != to);
        lemma_depends_self(g, to);
        assert(g2.dom() =~= g.dom());
        assert forall|k: usize| g2.contains_key(k) implies #[trigger] g2[k].inputs == if k == to {
            g[to].inputs.update(input_index, InputView { connected: from, ..g[to].inputs[input_index] })
        } else {
            g[k].inputs
        } by {}
        let rank = choose|rank: spec_fn(usize) -> nat| ranked_by(g, rank);
        let bump = rank(from) + 1;
        let rank2 = |n: usize|
            rank(n) + if depends_on(g, n, to) {
                bump
            } else {
                0nat
            };
        assert forall|k: usize, i: int|
            g2.contains_key(k) && 0 <= i < g2[k].inputs.len() && (#[trigger] g2[k].inputs[i]).connected != 0
                implies rank2(g2[k].inputs[i].connected) < rank2(k) by {
            if k == to && i == input_index {
                assert(g2[k].inputs[i].connected == from);
            } else {
                let c = g[k].inputs[i].connected;
                assert(g2[k].inputs[i] == g[k].inputs[i]);
                assert(rank(c) < rank(k));
                if depends_on(g, c, to) {
                    assert(feeds(g, k, c));
                    lemma_depends_through(g, k, c, to);
                }
            }
        }
        assert(ranked_by(g2, rank2));
    }
}

/// Connecting keeps the editor well formed: in particular the graph stays free of loops.
pub proof fn law_connect_keeps_wf(e: EditorView, from: usize, to: usize, input_index: int)
    requires
        e.wf(),
        e.nodes.contains_key(from),
        loop_free(e.nodes, from, to, Seq::empty()) ==> (e.nodes.contains_key(to) && 0 <= input_index
            < e.nodes[to].inputs.len() && e.nodes[to].inputs[input_index].connected == 0),
    ensures
        (EditorView {
            nodes: if connection_allowed(e.nodes, from, to, input_index) {
                connected_graph(e.nodes, from, to, input_index)
            } else {
                e.nodes
            },
            ..e
        }).wf(),
{
    let g = e.nodes;
    if connection_allowed(g, from, to, input_index) {
        let g1 = set_link(g, to, input_index, from);
        let g2 = push_target(g1, from, to);
        assert(g2 == connected_graph(g, from, to, input_index));
        law_check_refuses_exactly_loops(g, from, to);
        assert(has_inputs(g, to));
        assert(!depends_on(g, from, to));
        lemma_depends_self(g, from);
        assert(from != to);
        lemma_depends_self(g, to);
        assert(g2.dom() =~= g.dom());
        // the links are those of `g` except the new one
        assert forall|k: usize| g2.contains_key(k) implies #[trigger] g2[k].inputs == if k == to {
            g[to].inputs.update(input_index, InputView { connected: from, ..g[to].inputs[input_index] })
        } else {
            g[k].inputs
        } by {}
        assert(ids_bounded(g2, e.current_id));
        assert(ids_recorded(g2));
        assert(links_closed(g2));
        law_connect_keeps_loops_out(g, from, to, input_index);
        assert forall|n: usize, x: usize| g2.contains_key(n) && g2.contains_key(x) implies #[trigger] links_to(
            g2[x].inputs,
            n,
        ) == occurrences(g2[n].output.targets, x) by {
            assert(links_to(g[x].inputs, n) == occurrences(g[n].output.targets, x));
            if x == to {
                lemma_links_update(
                    g[to].inputs,
                    input_index,
                    InputView { connected: from, ..g[to].inputs[input_index] },
                    n,
                );
            }
            if n == from {
                lemma_occurrences_push(g[from].output.targets, to, x);
                assert(g2[from].output.targets == g[from].output.targets.push(to));
            } else {
                assert(g2[n].output.targets == g[n].output.targets);
            }
        }
        assert forall|n: usize, j: int|
            g2.contains_key(n) && 0 <= j < g2[n].output.targets.len() implies g2.contains_key(
            #[trigger] g2[n].output.targets[j],
        ) by {
            if n == from {
                assert(g2[from].output.targets == g[from].output.targets.push(to));
                if j < g[from].output.targets.len() {
                    assert(g2[n].output.targets[j] == g[from].output.targets[j]);
                }
            } else {
                assert(g2[n].output.targets == g[n].output.targets);
            }
        }
    }
}

/// Removing a connection keeps the editor well formed: the socket is freed and its feeder
/// drops one listing of the socket's node, so the output lists keep mirroring the sockets.
pub proof fn law_remove_connection_keeps_wf(e: EditorView, to: usize, input_index: int)
    requires
        e.wf(),
        e.nodes.contains_key(to),
        0 <= input_index < e.nodes[to].inputs.len(),
    ensures
        (EditorView { nodes: after_remove_connection(e.nodes, to, input_index), ..e }).wf(),
{
    let g = e.nodes;
    let c = g[to].inputs[input_index].connected;
    let freed = InputView { connected: 0, ..g[to].inputs[input_index] };
    let g1 = set_link(g, to, input_index, 0);
    let g2 = after_remove_connection(g, to, input_index);
    let rank = choose|rank: spec_fn(usize) -> nat| ranked_by(g, rank);
    if c != 0 {
        assert(g.contains_key(c));
        assert(rank(c) < rank(to));
        assert(g2 == drop_target(g1, c, to));
    }
    assert(g2.dom() =~= g.dom());
    assert forall|k: usize| g2.contains_key(k) implies #[trigger] g2[k].inputs == if k == to {
        g[to].inputs.update(input_index, freed)
    } else {
        g[k].inputs
    } by {}
    assert forall|k: usize| g2.contains_key(k) implies #[trigger] g2[k].output.targets == if c != 0 && k == c {
        remove_first(g[c].output.targets, to)
    } else {
        g[k].output.targets
    } by {}
    assert(ids_bounded(g2, e.current_id));
    assert(ids_recorded(g2));
    assert(links_closed(g2));
    assert forall|k: usize, i: int|
        g2.contains_key(k) && 0 <= i < g2[k].inputs.len() && (#[trigger] g2[k].inputs[i]).connected != 0
            implies rank(g2[k].inputs[i].connected) < rank(k) by {
        assert(g2[k].inputs[i] == g[k].inputs[i]);
    }
    assert(ranked_by(g2, rank));
    assert forall|n: usize, x: usize| g2.contains_key(n) && g2.contains_key(x) implies #[trigger] links_to(
        g2[x].inputs,
        n,
    ) == occurrences(g2[n].output.targets, x) by {
        assert(links_to(g[x].inputs, n) == occurrences(g[n].output.targets, x));
        assert(n != 0);
        if x == to {
            lemma_links_update(g[to].inputs, input_index, freed, n);
        }
        if c != 0 && n == c {
            if x == to {
                lemma_occurrences_zero(g[c].output.targets, to);
                lemma_remove_first_hit(g[c].output.targets, to);
            } else {
                lemma_remove_first_occurrences(g[c].output.targets, to, x);
            }
        }
    }
    assert forall|n: usize, j: int|
        g2.contains_key(n) && 0 <= j < g2[n].output.targets.len() implies g2.contains_key(
        #[trigger] g2[n].output.targets[j],
    ) by {
        if c != 0 && n == c {
            lemma_remove_first_member(g[c].output.targets, to, j);
            let m = choose|m: int|
                0 <= m < g[c].output.targets.len() && g[c].output.targets[m] == g2[n].output.targets[j];
            assert(g.contains_key(g[c].output.targets[m]));
        }
    }
}

/// Connecting a free socket and then removing that connection leaves every socket as it was.
pub proof fn law_connect_then_remove_restores_links(e: EditorView, from: usize, to: usize, input_index: int)
    requires
        e.wf(),
        e.nodes.contains_key(from),
        e.nodes.contains_key(to),
        0 <= input_index < e.nodes[to].inputs.len(),
        e.nodes[to].inputs[input_index].connected == 0,
    ensures
        ({
            let after = if connection_allowed(e.nodes, from, to, input_index) {
                connected_graph(e.nodes, from, to, input_index)
            } else {
                e.nodes
            };
            let undone = drop_target(set_link(after, to, input_index, 0), to, to);
            &&& undone.dom() == e.nodes.dom()
            &&& forall|k: usize| #[trigger] undone.contains_key(k) ==> undone[k].inputs == e.nodes[k].inputs
        }),
{
    let g = e.nodes;
    let after = if connection_allowed(g, from, to, input_index) {
        connected_graph(g, from, to, input_index)
    } else {
        g
    };
    let undone = drop_target(set_link(after, to, input_index, 0), to, to);
    assert(after.dom() =~= g.dom());
    assert(undone.dom() =~= g.dom());
    assert forall|k: usize| #[trigger] undone.contains_key(k) implies undone[k].inputs == g[k].inputs by {
        if k == to {
            let orig = g[to].inputs;
            assert(after[to].inputs =~= orig.update(input_index, InputView { connected: after[to].inputs[input_index].connected, ..orig[input_index] }));
            assert(undone[to].inputs =~= orig);
        }
    }
}

/// The `con` command given twice with the same arguments on a free socket leaves every socket
/// as it was: the first connects (when allowed) and the second disconnects.
pub proof fn law_con_twice_restores_links(e: EditorView, from: usize, to: usize, input_index: int)
    requires
        e.wf(),
        e.nodes.contains_key(from),
        e.nodes.contains_key(to),
        0 <= input_index < e.nodes[to].inputs.len(),
        e.nodes[to].inputs[input_index].connected == 0,
    ensures
        ({
            let twice = toggled_graph(toggled_graph(e.nodes, from, to, input_index), from, to, input_index);
            &&& twice.dom() == e.nodes.dom()
            &&& forall|k: usize| #[trigger] twice.contains_key(k) ==> twice[k].inputs == e.nodes[k].inputs
        }),
{
    let g = e.nodes;
    let once = toggled_graph(g, from, to, input_index);
    law_connect_then_remove_restores_links(e, from, to, input_index);
    if connection_allowed(g, from, to, input_index) {
        assert(once[to].inputs[input_index].connected == from);
        assert(from != 0);
        assert(toggled_graph(once, from, to, input_index) == after_remove_connection(once, to, input_index));
    } else {
        assert(once == g);
    }
}

/// Removing a node keeps the editor well formed, and no socket is left fed by the removed
/// node.
pub proof fn law_remove_node_keeps_wf(e: EditorView, node_id: usize)
    requires
        e.wf(),
        e.nodes.contains_key(node_id),
    ensures
        ({
            let g3 = disconnected_graph(e.nodes, node_id).remove(node_id);
            &&& (EditorView { nodes: g3, ..e }).wf()
            &&& forall|k: usize, i: int|
                g3.contains_key(k) && 0 <= i < g3[k].inputs.len() ==> (#[trigger] g3[k].inputs[i]).connected
                    != node_id
        }),
{
    let g = e.nodes;
    let n = node_id;
    let feeders = link_ids(g[n]);
    let g1 = unlisted_by(g, n, feeders);
    let list = g1[n].output.targets;
    let g2 = cut_by(g1, n, list);
    let g3 = g2.remove(n);
    assert(g3 == disconnected_graph(g, n).remove(n));
    let rank = choose|rank: spec_fn(usize) -> nat| ranked_by(g, rank);
    assert(n != 0);
    if feeders.contains(n) {
        let i = choose|i: int| 0 <= i < feeders.len() && feeders[i] == n;
        assert(g[n].inputs[i].connected == n);
        assert(rank(n) < rank(n));
    }
    assert(g1[n] == g[n]);
    assert(g3.dom() =~= g.dom().remove(n));
    assert forall|k: usize| #[trigger] g3.contains_key(k) implies g3[k].inputs == clear_links(
        g[k].inputs,
        n,
        occurrences(g[n].output.targets, k),
    ) && g3[k].id == g[k].id && (g3[k].output.targets == g[k].output.targets
        || g3[k].output.targets == without(g[k].output.targets, n)) by {}
    assert forall|k: usize, i: int|
        g3.contains_key(k) && 0 <= i < g3[k].inputs.len() implies (#[trigger] g3[k].inputs[i]).connected
        == g[k].inputs[i].connected || g3[k].inputs[i].connected == 0 by {
        lemma_clear_links_entries(g[k].inputs, n, occurrences(g[n].output.targets, k));
    }
    assert forall|k: usize, i: int|
        g3.contains_key(k) && 0 <= i < g3[k].inputs.len() implies (#[trigger] g3[k].inputs[i]).connected
        != n by {
        assert(links_to(g[k].inputs, n) <= occurrences(g[n].output.targets, k));
        lemma_clear_links_entries(g[k].inputs, n, occurrences(g[n].output.targets, k));
        lemma_clear_links_all(g[k].inputs, n, occurrences(g[n].output.targets, k));
    }
    assert(ids_bounded(g3, e.current_id));
    assert(ids_recorded(g3));
    assert forall|k: usize, i: int|
        g3.contains_key(k) && 0 <= i < g3[k].inputs.len() && (#[trigger] g3[k].inputs[i]).connected != 0
            implies g3.contains_key(g3[k].inputs[i].connected) && rank(g3[k].inputs[i].connected) < rank(
            k,
        ) by {
        lemma_clear_links_entries(g[k].inputs, n, occurrences(g[n].output.targets, k));
        assert(g3[k].inputs[i].connected == g[k].inputs[i].connected);
    }
    assert(links_closed(g3));
    assert(ranked_by(g3, rank));
    assert forall|m: usize, x: usize| g3.contains_key(m) && g3.contains_key(x) implies #[trigger] links_to(
        g3[x].inputs,
        m,
    ) == occurrences(g3[m].output.targets, x) by {
        assert(links_to(g[x].inputs, m) == occurrences(g[m].output.targets, x));
        lemma_clear_links_other(g[x].inputs, n, occurrences(g[n].output.targets, x), m);
        lemma_without_occurrences(g[m].output.targets, n, x);
    }
    assert forall|m: usize| #[trigger] g3.contains_key(m) implies g3[m].output.targets == if feeders.contains(m) {
        without(g[m].output.targets, n)
    } else {
        g[m].output.targets
    } by {}
    assert forall|m: usize, j: int|
        g3.contains_key(m) && 0 <= j < g3[m].output.targets.len() implies g3.contains_key(
        #[trigger] g3[m].output.targets[j],
    ) by {
        let t = g3[m].output.targets[j];
        if feeders.contains(m) {
            crate::editor::lemma_without_member(g[m].output.targets, n, j);
            lemma_without_drops(g[m].output.targets, n);
            assert(without(g[m].output.targets, n).contains(t));
        } else {
            assert forall|i: int| 0 <= i < g[n].inputs.len() implies #[trigger] g[n].inputs[i].connected != m by {
                if g[n].inputs[i].connected == m {
                    assert(feeders[i] == m);
                }
            }
            lemma_links_zero(g[n].inputs, m);
            assert(links_to(g[n].inputs, m) == occurrences(g[m].output.targets, n));
            lemma_occurrences_zero(g[m].output.targets, n);
            assert(g[m].output.targets[j] == t);
        }
        let k = choose|k: int| 0 <= k < g[m].output.targets.len() && g[m].output.targets[k] == t;
        assert(g.contains_key(g[m].output.targets[k]));
    }
}

/// Evaluation never runs forever: beyond a node's rank, more nested steps change nothing, so a
/// node that gives no value within its rank plus one steps fails outright.
pub proof fn law_evaluation_never_loops(
    g: Graph,
    cache: Map<usize, ValueView>,
    rank: spec_fn(usize) -> nat,
    id: usize,
    fuel: nat,
)
    requires
        ranked_by(g, rank),
        fuel > rank(id),
    ensures
        eval_node(g, cache, id, fuel) == eval_node(g, cache, id, rank(id) + 1),
    decreases fuel - rank(id),
{
    if fuel > rank(id) + 1 {
        lemma_eval_stable(g, cache, rank, id, (fuel - 1) as nat);
        law_evaluation_never_loops(g, cache, rank, id, (fuel - 1) as nat);
    }
}

/// The number of nodes ranked below node `k`.
pub open spec fn rank_below(g: Graph, rank: spec_fn(usize) -> nat, k: usize) -> nat {
    g.dom().filter(|j: usize| rank(j) < rank(k)).len()
}

/// Counting the nodes ranked below is itself a ranking, and stays below the number of nodes.
proof fn lemma_rank_below(g: Graph, rank: spec_fn(usize) -> nat)
    requires
        ranked_by(g, rank),
        links_closed(g),
        g.dom().finite(),
    ensures
        ranked_by(g, |k: usize| rank_below(g, rank, k)),
        forall|k: usize| #[trigger] g.contains_key(k) ==> rank_below(g, rank, k) < g.dom().len(),
{
    assert forall|k: usize| #[trigger] g.contains_key(k) implies rank_below(g, rank, k) < g.dom().len() by {
        let a = g.dom().filter(|j: usize| rank(j) < rank(k));
        assert(a.subset_of(g.dom().remove(k)));
        vstd::set_lib::lemma_len_subset(a, g.dom().remove(k));
    }
    assert forall|k: usize, i: int|
        g.contains_key(k) && 0 <= i < g[k].inputs.len() && (#[trigger] g[k].inputs[i]).connected != 0
            implies rank_below(g, rank, g[k].inputs[i].connected) < rank_below(g, rank, k) by {
        let c = g[k].inputs[i].connected;
        assert(rank(c) < rank(k));
        assert(g.contains_key(c));
        let a = g.dom().filter(|j: usize| rank(j) < rank(c));
        let b = g.dom().filter(|j: usize| rank(j) < rank(k));
        assert(b.contains(c));
        assert(a.subset_of(b.remove(c)));
        vstd::set_lib::lemma_set_subset_finite(g.dom(), b);
        vstd::set_lib::lemma_len_subset(a, b.remove(c));
    }
}

/// Evaluation nests no deeper than there are nodes: in a graph without loops whose connected
/// sockets are fed by nodes of the graph, a node that evaluates does so within as many nested
/// steps as the graph has nodes.
pub proof fn law_evaluation_depth_bounded(g: Graph, cache: Map<usize, ValueView>, id: usize)
    requires
        links_closed(g),
        acyclic(g),
        g.dom().finite(),
        node_evaluates(g, cache, id),
    ensures
        node_depth(g, cache, id) <= g.dom().len(),
{
    let rank = choose|rank: spec_fn(usize) -> nat| ranked_by(g, rank);
    lemma_rank_below(g, rank);
    let r2 = |k: usize| rank_below(g, rank, k);
    let f = choose|f: nat| #[trigger] eval_node(g, cache, id, f) is Some;
    assert(g.contains_key(id));
    let bound = r2(id) + 1;
    if f <= bound {
        lemma_eval_node_more(g, cache, id, f, bound);
    } else {
        law_evaluation_never_loops(g, cache, r2, id, f);
    }
    lemma_node_depth(g, cache, id, bound);
}

proof fn lemma_eval_stable(g: Graph, cache: Map<usize, ValueView>, rank: spec_fn(usize) -> nat, id: usize, fuel: nat)
    requires
        ranked_by(g, rank),
        fuel > rank(id),
    ensures
        eval_node(g, cache, id, fuel + 1) == eval_node(g, cache, id, fuel),
    decreases rank(id),
{
    if g.contains_key(id) {
        let node = g[id];
        let f1 = (fuel - 1) as nat;
        assert forall|j: int| 0 <= j < node.inputs.len() implies #[trigger] eval_input(g, cache, node.inputs[j], fuel)
            == eval_input(g, cache, node.inputs[j], f1) by {
            let c = node.inputs[j].connected;
            if c != 0 && !cache.contains_key(c) {
                assert(rank(c) < rank(id));
                lemma_eval_stable(g, cache, rank, c, f1);
            }
        }
        if node.inputs.len() >= 1 {
            assert(eval_input(g, cache, node.inputs[0], fuel) == eval_input(g, cache, node.inputs[0], f1));
        }
        if node.inputs.len() >= 2 {
            assert(eval_input(g, cache, node.inputs[1], fuel) == eval_input(g, cache, node.inputs[1], f1));
        }
    }
}

/// Changing what the sockets and nodes hold, but not the connections, ids or output lists,
/// keeps the editor well formed.
proof fn lemma_same_links_keeps_wf(e: EditorView, g2: Graph)
    requires
        e.wf(),
        g2.dom() == e.nodes.dom(),
        forall|k: usize| #[trigger] g2.contains_key(k) ==> {
            &&& g2[k].id == e.nodes[k].id
            &&& g2[k].output.targets == e.nodes[k].output.targets
            &&& g2[k].inputs.len() == e.nodes[k].inputs.len()
            &&& forall|i: int| 0 <= i < g2[k].inputs.len() ==> (#[trigger] g2[k].inputs[i]).connected
                == e.nodes[k].inputs[i].connected
        },
    ensures
        (EditorView { nodes: g2, ..e }).wf(),
{
    let g = e.nodes;
    let rank = choose|rank: spec_fn(usize) -> nat| ranked_by(g, rank);
    assert forall|k: usize, i: int|
        g2.contains_key(k) && 0 <= i < g2[k].inputs.len() && (#[trigger] g2[k].inputs[i]).connected != 0
            implies g2.contains_key(g2[k].inputs[i].connected) && rank(g2[k].inputs[i].connected) < rank(k) by {
        assert(g2[k].inputs[i].connected == g[k].inputs[i].connected);
        assert(g[k].inputs[i].connected != 0);
    }
    assert(ranked_by(g2, rank));
    assert forall|n: usize, x: usize| g2.contains_key(n) && g2.contains_key(x) implies #[trigger] links_to(
        g2[x].inputs,
        n,
    ) == occurrences(g2[n].output.targets, x) by {
        assert(links_to(g[x].inputs, n) == occurrences(g[n].output.targets, x));
        lemma_links_same(g2[x].inputs, g[x].inputs, n);
    }
    assert forall|n: usize, j: int|
        g2.contains_key(n) && 0 <= j < g2[n].output.targets.len() implies g2.contains_key(
        #[trigger] g2[n].output.targets[j],
    ) by {
        assert(g.contains_key(g[n].output.targets[j]));
    }
}

proof fn lemma_links_same(a: Seq<InputView>, b: Seq<InputView>, n: usize)
    requires
        a.len() == b.len(),
        forall|i: int| 0 <= i < a.len() ==> (#[trigger] a[i]).connected == b[i].connected,
    ensures
        links_to(a, n) == links_to(b, n),
    decreases a.len(),
{
    if a.len() > 0 {
        assert forall|i: int| 0 <= i < a.skip(1).len() implies (#[trigger] a.skip(1)[i]).connected == b.skip(
            1,
        )[i].connected by {
            assert(a.skip(1)[i] == a[i + 1] && b.skip(1)[i] == b[i + 1]);
        }
        lemma_links_same(a.skip(1), b.skip(1), n);
    }
}

/// Every command the editor carries out keeps it well formed.
pub proof fn law_commands_keep_wf(e: EditorView, c: CommandView)
    requires
        e.wf(),
        command_allowed(e, c),
    ensures
        state_after(e, c).wf(),
{
    let g = e.nodes;
    match c {
        CommandView::Pos(id, x, y) => {
            let g2 = g.insert(id, NodeView { x: x, y: y, ..g[id] });
            assert(g2.dom() =~= g.dom());
            lemma_same_links_keeps_wf(e, g2);
        },
        CommandView::SetVal(id, index, text) => {
            let g2 = state_after(e, c).nodes;
            assert(g2.dom() =~= g.dom());
            lemma_same_links_keeps_wf(e, g2);
        },
        CommandView::Con(from, to, index) => {
            let i = index as int;
            let current = g[to].inputs[i].connected;
            if current == 0 {
                law_connect_keeps_wf(e, from, to, i);
            } else if current == from {
                law_remove_connection_keeps_wf(e, to, i);
            } else {
                law_remove_connection_keeps_wf(e, to, i);
                let e1 = EditorView { nodes: after_remove_connection(g, to, i), ..e };
                assert(e1.nodes.dom() =~= g.dom());
                law_connect_keeps_wf(e1, from, to, i);
                assert(state_after(e, c) == EditorView { nodes: after_connect(e1.nodes, from, to, i), ..e1 });
            }
        },
        CommandView::AddNode(title) => {
            if let Some(t) = template_named(title) {
                let node = NodeView { x: 2, y: 2, ..template_node(t) };
                law_add_node_keeps_wf(e, node);
                assert(NodeView { id: (e.current_id + 1) as usize, ..node } == NodeView {
                    id: (e.current_id + 1) as usize,
                    x: 2,
                    y: 2,
                    ..template_node(t)
                });
            }
        },
        _ => {},
    }
}

} // verus!
