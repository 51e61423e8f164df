//! Checking that an editor is well formed, as one read back from a file must be before the
//! editor's operations may run on it.
use std::collections::HashMap;
use vstd::prelude::*;

use crate::editor::{
    acyclic, ids_bounded, ids_recorded, links_closed, links_to, occurrences, outputs_cover, ranked_by,
    targets_closed,
    Editor, Graph, InputView, Node,
};

verus! {

broadcast use vstd::std_specs::hash::group_hash_axioms;

/// Node `k` has a connected socket whose feeder is not in `done`.
pub open spec fn blocked(g: Graph, done: Set<usize>, k: usize) -> bool {
    exists|i: int|
        0 <= i < g[k].inputs.len() && (#[trigger] g[k].inputs[i]).connected != 0 && !done.contains(
            g[k].inputs[i].connected,
        )
}

/// A finite non-empty set has an element of least rank.
proof fn lemma_least_rank(s: Set<usize>, rank: spec_fn(usize) -> nat) -> (m: usize)
    requires
        s.finite(),
        s.len() > 0,
    ensures
        s.contains(m),
        forall|k: usize| #[trigger] s.contains(k) ==> rank(m) <= rank(k),
    decreases s.len(),
{
    let a = s.choose();
    if s.len() == 1 {
        assert forall|k: usize| #[trigger] s.contains(k) implies rank(a) <= rank(k) by {
            if k != a {
                assert(s.remove(a).contains(k));
                assert(s.remove(a).len() == 0);
            }
        }
        a
    } else {
        let m = lemma_least_rank(s.remove(a), rank);
        if rank(a) <= rank(m) {
            a
        } else {
            m
        }
    }
}

/// When every node left out of `done` is blocked by another such node, the graph has a loop.
proof fn lemma_blocked_rest_loops(g: Graph, done: Set<usize>)
    requires
        g.dom().finite(),
        links_closed(g),
        exists|k: usize| g.contains_key(k) && !done.contains(k),
        forall|k: usize| g.contains_key(k) && !done.contains(k) ==> #[trigger] blocked(g, done, k),
    ensures
        !acyclic(g),
{
    let rest = g.dom().difference(done);
    let k0 = choose|k: usize| g.contains_key(k) && !done.contains(k);
    assert(rest.contains(k0));
    vstd::set_lib::lemma_len_difference(g.dom(), done);
    vstd::set_lib::lemma_set_subset_finite(g.dom(), rest);
    assert(rest.len() > 0);
    if acyclic(g) {
        let rank = choose|rank: spec_fn(usize) -> nat| ranked_by(g, rank);
        let m = lemma_least_rank(rest, rank);
        assert(blocked(g, done, m));
        let i = choose|i: int|
            0 <= i < g[m].inputs.len() && (#[trigger] g[m].inputs[i]).connected != 0 && !done.contains(
                g[m].inputs[i].connected,
            );
        let c = g[m].inputs[i].connected;
        assert(g.contains_key(c));
        assert(rest.contains(c));
        assert(rank(c) < rank(m));
    }
}

/// How many of the sockets of `node` are fed by node `n`.
fn count_links(node: &Node, n: usize) -> (count: usize)
    ensures
        count == links_to(node@.inputs, n),
{
    let ghost s = node@.inputs;
    let len = node.input_count();
    let mut i: usize = len;
    let mut count: usize = 0;
    assert(s.skip(len as int) =~= Seq::<InputView>::empty());
    while i > 0
        invariant
            i <= len,
            len == s.len(),
            s == node@.inputs,
            count == links_to(s.skip(i as int), n),
            count <= len - i,
        decreases i,
    {
        i -= 1;
        let c = node.get_input(i).get_connected_id();
        assert(s.skip(i as int).skip(1) =~= s.skip(i + 1));
        assert(s.skip(i as int)[0] == s[i as int]);
        if c == n {
            count += 1;
        }
    }
    assert(s.skip(0) =~= s);
    count
}

/// How many times `x` occurs in `v`.
fn count_occurrences(v: &Vec<usize>, x: usize) -> (count: usize)
    ensures
        count == occurrences(v@, x),
{
    let ghost s = v@;
    let len = v.len();
    let mut i: usize = len;
    let mut count: usize = 0;
    assert(s.skip(len as int) =~= Seq::<usize>::empty());
    while i > 0
        invariant
            i <= len,
            len == s.len(),
            s == v@,
            count == occurrences(s.skip(i as int), x),
            count <= len - i,
        decreases i,
    {
        i -= 1;
        assert(s.skip(i as int).skip(1) =~= s.skip(i + 1));
        assert(s.skip(i as int)[0] == s[i as int]);
        if v[i] == x {
            count += 1;
        }
    }
    assert(s.skip(0) =~= s);
    count
}

impl Editor {
    /// Whether the editor is well formed, as its operations need it: ids in range and
    /// recorded, every connected socket fed by a node of the editor, no loop, and the output
    /// lists naming exactly the nodes fed, once per socket. An editor read back from a file is checked so.
    pub fn is_well_formed(&self) -> (ok: bool)
        ensures
            ok == self@.wf(),
    {
        let ghost g = self@.nodes;
        let ids = self.node_ids();
        let nodes = self.get_nodes();
        proof {
            assert(nodes@.dom() =~= g.dom());
            assert(ids@.no_duplicates()) by {
                assert forall|i: int, j: int| 0 <= i < ids@.len() && 0 <= j < ids@.len() && i != j implies ids@[i]
                    != ids@[j] by {
                    if i < j {
                        assert(ids@[i] < ids@[j]);
                    } else {
                        assert(ids@[j] < ids@[i]);
                    }
                }
            }
            ids@.unique_seq_to_set();
            assert(ids@.to_set().subset_of(g.dom()));
            vstd::set_lib::lemma_set_subset_finite(nodes@.dom(), ids@.to_set());
        }
        if ids.len() != nodes.len() {
            proof {
                if ids_bounded(g, self@.current_id) {
                    assert(g.dom() =~= ids@.to_set());
                }
            }
            return false;
        }
        proof {
            vstd::set_lib::lemma_subset_equality(ids@.to_set(), g.dom());
            assert forall|k: usize| g.contains_key(k) <==> ids@.contains(k) by {
                assert(ids@.to_set().contains(k) == ids@.contains(k));
            }
            assert(ids_bounded(g, self@.current_id));
        }
        if !self.check_ids_recorded(&ids) {
            return false;
        }
        if !self.check_links_closed(&ids) {
            return false;
        }
        if !self.check_outputs_cover(&ids) {
            return false;
        }
        if !self.check_targets_closed(&ids) {
            return false;
        }
        self.check_acyclic(&ids)
    }

    /// Whether the sockets of node `k` are all free or fed by nodes in `marks`.
    fn feeders_marked(&self, k: usize, marks: &HashMap<usize, usize>) -> (ready: bool)
        requires
            self@.nodes.contains_key(k),
        ensures
            ready == !blocked(self@.nodes, marks@.dom(), k),
    {
        let ghost g = self@.nodes;
        let node = self.get_node(k).unwrap();
        let n = node.input_count();
        let mut i: usize = 0;
        while i < n
            invariant
                i <= n,
                g == self@.nodes,
                g.contains_key(k),
                n == g[k].inputs.len(),
                node@ == g[k],
                forall|j: int|
                    0 <= j < i && (#[trigger] g[k].inputs[j]).connected != 0 ==> marks@.dom().contains(
                        g[k].inputs[j].connected,
                    ),
            decreases n - i,
        {
            let c = node.get_input(i).get_connected_id();
            if c != 0 && !marks.contains_key(&c) {
                assert(g[k].inputs[i as int].connected == c);
                return false;
            }
            i += 1;
        }
        true
    }

    /// Whether the nodes can be ranked so that every node comes after the nodes feeding it:
    /// nodes are ranked, sweep after sweep, once all their feeders are ranked, until a sweep
    /// ranks none.
    fn check_acyclic(&self, ids: &Vec<usize>) -> (ok: bool)
        requires
            forall|k: usize| self@.nodes.contains_key(k) <==> ids@.contains(k),
            ids@.no_duplicates(),
            self@.nodes.dom().finite(),
            links_closed(self@.nodes),
        ensures
            ok == acyclic(self@.nodes),
    {
        let ghost g = self@.nodes;
        proof {
            ids@.unique_seq_to_set();
            assert(g.dom() =~= ids@.to_set());
        }
        let mut marks: HashMap<usize, usize> = HashMap::new();
        let mut counter: usize = 0;
        let mut progress = true;
        assert(marks@.dom() =~= Set::<usize>::empty());
        while progress
            invariant
                g == self@.nodes,
                forall|k: usize| g.contains_key(k) <==> ids@.contains(k),
                g.dom().finite(),
                g.dom().len() == ids@.len(),
                marks@.dom().subset_of(g.dom()),
                marks@.dom().finite(),
                marks@.dom().len() == counter,
                counter <= ids@.len(),
                forall|k: usize| #[trigger] marks@.contains_key(k) ==> 1 <= marks@[k] <= counter,
                forall|k: usize, i: int|
                    marks@.contains_key(k) && 0 <= i < g[k].inputs.len() && (#[trigger] g[k].inputs[i]).connected
                        != 0 ==> marks@.contains_key(g[k].inputs[i].connected) && marks@[g[k].inputs[i].connected]
                        < marks@[k],
                !progress ==> forall|k: usize|
                    g.contains_key(k) && !marks@.contains_key(k) ==> #[trigger] blocked(g, marks@.dom(), k),
            decreases ids@.len() - counter + if progress {
                1int
            } else {
                0int
            },
        {
            let before = counter;
            let mut p: usize = 0;
            while p < ids.len()
                invariant
                    p <= ids.len(),
                    g == self@.nodes,
                    forall|k: usize| g.contains_key(k) <==> ids@.contains(k),
                    g.dom().finite(),
                    g.dom().len() == ids@.len(),
                    marks@.dom().subset_of(g.dom()),
                    marks@.dom().finite(),
                    marks@.dom().len() == counter,
                    before <= counter <= ids@.len(),
                    forall|k: usize| #[trigger] marks@.contains_key(k) ==> 1 <= marks@[k] <= counter,
                    forall|k: usize, i: int|
                        marks@.contains_key(k) && 0 <= i < g[k].inputs.len() && (#[trigger] g[k].inputs[i]).connected
                            != 0 ==> marks@.contains_key(g[k].inputs[i].connected)
                            && marks@[g[k].inputs[i].connected] < marks@[k],
                    counter == before ==> forall|q: int|
                        0 <= q < p && !marks@.contains_key(#[trigger] ids@[q]) ==> blocked(g, marks@.dom(), ids@[q]),
                decreases ids.len() - p,
            {
                let k = ids[p];
                assert(ids@.contains(k));
                if !marks.contains_key(&k) && self.feeders_marked(k, &marks) {
                    proof {
                        vstd::set_lib::lemma_len_subset(marks@.dom().insert(k), g.dom());
                    }
                    counter += 1;
                    let ghost old_marks = marks@;
                    marks.insert(k, counter);
                    proof {
                        assert(marks@.dom() =~= old_marks.dom().insert(k));
                        assert forall|m: usize, i: int|
                            marks@.contains_key(m) && 0 <= i < g[m].inputs.len() && (#[trigger] g[m].inputs[i]).connected
                                != 0 implies marks@.contains_key(g[m].inputs[i].connected)
                            && marks@[g[m].inputs[i].connected] < marks@[m] by {
                            if m == k {
                                assert(!blocked(g, old_marks.dom(), k));
                                assert(old_marks.contains_key(g[m].inputs[i].connected));
                            } else {
                                assert(old_marks.contains_key(m));
                            }
                        }
                    }
                }
                p += 1;
            }
            progress = counter != before;
            proof {
                if !progress {
                    assert forall|k: usize|
                        g.contains_key(k) && !marks@.contains_key(k) implies #[trigger] blocked(g, marks@.dom(), k) by {
                        assert(ids@.contains(k));
                        let q = choose|q: int| 0 <= q < ids@.len() && ids@[q] == k;
                        assert(!marks@.contains_key(ids@[q]));
                    }
                }
            }
        }
        if counter == ids.len() {
            proof {
                vstd::set_lib::lemma_subset_equality(marks@.dom(), g.dom());
                let rank = |k: usize| marks@[k] as nat;
                assert forall|k: usize, i: int|
                    g.contains_key(k) && 0 <= i < g[k].inputs.len() && (#[trigger] g[k].inputs[i]).connected != 0
                        implies rank(g[k].inputs[i].connected) < rank(k) by {
                    assert(marks@.dom().contains(k));
                }
                assert(ranked_by(g, rank));
            }
            true
        } else {
            proof {
                if forall|k: usize| g.contains_key(k) ==> marks@.contains_key(k) {
                    assert(g.dom().subset_of(marks@.dom()));
                    vstd::set_lib::lemma_len_subset(g.dom(), marks@.dom());
                }
                lemma_blocked_rest_loops(g, marks@.dom());
            }
            false
        }
    }

    /// Whether every listed node records its own id.
    fn check_ids_recorded(&self, ids: &Vec<usize>) -> (ok: bool)
        requires
            forall|k: usize| self@.nodes.contains_key(k) <==> ids@.contains(k),
        ensures
            ok == ids_recorded(self@.nodes),
    {
        let ghost g = self@.nodes;
        let mut p: usize = 0;
        while p < ids.len()
            invariant
                p <= ids.len(),
                g == self@.nodes,
                forall|k: usize| g.contains_key(k) <==> ids@.contains(k),
                forall|q: int| 0 <= q < p ==> g[#[trigger] ids@[q]].id == ids@[q],
            decreases ids.len() - p,
        {
            let k = ids[p];
            assert(ids@.contains(k));
            let node = self.get_node(k).unwrap();
            if node.get_id() != k {
                return false;
            }
            p += 1;
        }
        assert forall|k: usize| #[trigger] g.contains_key(k) implies g[k].id == k by {
            assert(ids@.contains(k));
            let q = choose|q: int| 0 <= q < ids@.len() && ids@[q] == k;
            assert(g[ids@[q]].id == ids@[q]);
        }
        true
    }

    /// Whether every connected socket of the listed nodes is fed by a node of the editor.
    fn check_links_closed(&self, ids: &Vec<usize>) -> (ok: bool)
        requires
            forall|k: usize| self@.nodes.contains_key(k) <==> ids@.contains(k),
        ensures
            ok == links_closed(self@.nodes),
    {
        let ghost g = self@.nodes;
        let mut p: usize = 0;
        while p < ids.len()
            invariant
                p <= ids.len(),
                g == self@.nodes,
                forall|k: usize| g.contains_key(k) <==> ids@.contains(k),
                forall|q: int, i: int|
                    0 <= q < p && 0 <= i < g[ids@[q]].inputs.len() && (#[trigger] g[ids@[q]].inputs[i]).connected
                        != 0 ==> g.contains_key(g[ids@[q]].inputs[i].connected),
            decreases ids.len() - p,
        {
            let k = ids[p];
            assert(ids@.contains(k));
            let node = self.get_node(k).unwrap();
            let n = node.input_count();
            let mut i: usize = 0;
            while i < n
                invariant
                    i <= n,
                    g.contains_key(k),
                    n == g[k].inputs.len(),
                    node@ == g[k],
                    g == self@.nodes,
                    forall|j: int|
                        0 <= j < i && (#[trigger] g[k].inputs[j]).connected != 0 ==> g.contains_key(
                            g[k].inputs[j].connected,
                        ),
                decreases n - i,
            {
                let c = node.get_input(i).get_connected_id();
                if c != 0 && self.get_node(c).is_none() {
                    assert(g[k].inputs[i as int].connected == c);
                    assert(!g.contains_key(g[k].inputs[i as int].connected));
                    assert(!links_closed(g));
                    return false;
                }
                i += 1;
            }
            p += 1;
        }
        assert forall|k: usize, i: int|
            g.contains_key(k) && 0 <= i < g[k].inputs.len() && (#[trigger] g[k].inputs[i]).connected != 0 implies g.contains_key(
            g[k].inputs[i].connected,
        ) by {
            assert(ids@.contains(k));
            let q = choose|q: int| 0 <= q < ids@.len() && ids@[q] == k;
            assert(g[ids@[q]].inputs[i] == g[k].inputs[i]);
        }
        true
    }

    /// Whether every node listed on an output of a listed node is a node of the editor.
    fn check_targets_closed(&self, ids: &Vec<usize>) -> (ok: bool)
        requires
            forall|k: usize| self@.nodes.contains_key(k) <==> ids@.contains(k),
        ensures
            ok == targets_closed(self@.nodes),
    {
        let ghost g = self@.nodes;
        let mut p: usize = 0;
        while p < ids.len()
            invariant
                p <= ids.len(),
                g == self@.nodes,
                forall|k: usize| g.contains_key(k) <==> ids@.contains(k),
                forall|q: int, j: int|
                    0 <= q < p && 0 <= j < g[ids@[q]].output.targets.len() ==> g.contains_key(
                        #[trigger] g[ids@[q]].output.targets[j],
                    ),
            decreases ids.len() - p,
        {
            let k = ids[p];
            assert(ids@.contains(k));
            let targets = self.get_node(k).unwrap().get_output().get_connected_ids();
            let mut j: usize = 0;
            while j < targets.len()
                invariant
                    j <= targets.len(),
                    g == self@.nodes,
                    g.contains_key(k),
                    targets@ == g[k].output.targets,
                    forall|i: int| 0 <= i < j ==> g.contains_key(#[trigger] g[k].output.targets[i]),
                decreases targets.len() - j,
            {
                if self.get_node(targets[j]).is_none() {
                    assert(!g.contains_key(g[k].output.targets[j as int]));
                    return false;
                }
                j += 1;
            }
            p += 1;
        }
        assert forall|n: usize, j: int|
            g.contains_key(n) && 0 <= j < g[n].output.targets.len() implies g.contains_key(
            #[trigger] g[n].output.targets[j],
        ) by {
            assert(ids@.contains(n));
            let q = choose|q: int| 0 <= q < ids@.len() && ids@[q] == n;
            assert(g[ids@[q]].output.targets[j] == g[n].output.targets[j]);
        }
        true
    }

    /// Whether each listed node lists on its output every node it feeds, once for each socket
    /// it feeds, and no other node.
    fn check_outputs_cover(&self, ids: &Vec<usize>) -> (ok: bool)
        requires
            forall|k: usize| self@.nodes.contains_key(k) <==> ids@.contains(k),
        ensures
            ok == outputs_cover(self@.nodes),
    {
        let ghost g = self@.nodes;
        let mut p: usize = 0;
        while p < ids.len()
            invariant
                p <= ids.len(),
                g == self@.nodes,
                forall|k: usize| g.contains_key(k) <==> ids@.contains(k),
                forall|q: int, x: usize|
                    0 <= q < p && g.contains_key(x) ==> #[trigger] links_to(g[x].inputs, ids@[q]) == occurrences(
                        g[ids@[q]].output.targets,
                        x,
                    ),
            decreases ids.len() - p,
        {
            let n = ids[p];
            assert(ids@.contains(n));
            let feeder = self.get_node(n).unwrap();
            let targets = feeder.get_output().get_connected_ids();
            let mut r: usize = 0;
            while r < ids.len()
                invariant
                    r <= ids.len(),
                    g == self@.nodes,
                    g.contains_key(n),
                    targets@ == g[n].output.targets,
                    forall|k: usize| g.contains_key(k) <==> ids@.contains(k),
                    forall|t: int| 0 <= t < r ==> #[trigger] links_to(g[ids@[t]].inputs, n) == occurrences(
                        g[n].output.targets,
                        ids@[t],
                    ),
                decreases ids.len() - r,
            {
                let x = ids[r];
                assert(ids@.contains(x));
                let fed = self.get_node(x).unwrap();
                if count_links(fed, n) != count_occurrences(targets, x) {
                    return false;
                }
                r += 1;
            }
            proof {
                assert forall|x: usize| g.contains_key(x) implies #[trigger] links_to(g[x].inputs, n) == occurrences(
                    g[n].output.targets,
                    x,
                ) by {
                    assert(ids@.contains(x));
                    let t = choose|t: int| 0 <= t < ids@.len() && ids@[t] == x;
                    assert(links_to(g[ids@[t]].inputs, n) == occurrences(g[n].output.targets, ids@[t]));
                }
            }
            p += 1;
        }
        assert forall|n: usize, x: usize| g.contains_key(n) && g.contains_key(x) implies #[trigger] links_to(
            g[x].inputs,
            n,
        ) == occurrences(g[n].output.targets, x) by {
            assert(ids@.contains(n));
            let q = choose|q: int| 0 <= q < ids@.len() && ids@[q] == n;
            assert(links_to(g[x].inputs, ids@[q]) == occurrences(g[ids@[q]].output.targets, x));
        }
        true
    }
}

} // verus!
