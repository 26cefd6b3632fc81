//! Depth-first search.
//!
//! A naive DFS is recursive, and so it can run out of stack space. Here, we prevent that by
//! manually maintaining our own stack. Each frame keeps track of the node being explored and
//! which of its neighbors remain to explore.

use vstd::prelude::*;

use crate::graph::{copy_usizes, node_range, valid_graph, Graph};

verus! {

/// Whether the destination of a traversed edge was seen for the first time.
#[derive(Clone, Copy, Debug, PartialEq, Eq, Structural)]
pub enum Status {
    /// The destination had not been visited before.
    New,
    /// The destination had already been visited.
    Repeated,
}

/// One step of a depth-first search.
#[derive(Clone, Copy, Debug, PartialEq, Eq)]
pub enum Visit {
    /// The search traversed the edge from `src` to `dst`.
    Edge { src: usize, dst: usize, status: Status },
    /// The search finished exploring `u`, and went back to `parent`.
    Retreat { u: usize, parent: Option<usize> },
    /// The search started a new tree at this node.
    Root(usize),
}

/// A node being explored, together with its out-neighbors and how many of them were explored.
pub struct StackFrame {
    u: usize,
    neighbors: Vec<usize>,
    pos: usize,
}

impl StackFrame {
    fn new<G: Graph>(g: &G, u: usize) -> (r: StackFrame)
        requires
            u < g.spec_num_nodes(),
        ensures
            r.u == u,
            r.neighbors@ == g.spec_out(u as int),
            r.pos == 0,
    {
        StackFrame { neighbors: g.out_edges(u), u, pos: 0 }
    }
}

/// The number of `false` entries of `s`.
pub open spec fn count_false(s: Seq<bool>) -> nat
    decreases s.len(),
{
    if s.len() == 0 {
        0
    } else {
        count_false(s.drop_last()) + if s.last() { 0nat } else { 1nat }
    }
}

proof fn lemma_count_false_set(s: Seq<bool>, i: int)
    requires
        0 <= i < s.len(),
        !s[i],
    ensures
        count_false(s.update(i, true)) + 1 == count_false(s),
    decreases s.len(),
{
    let t = s.update(i, true);
    if i == s.len() - 1 {
        assert(t.drop_last() =~= s.drop_last());
    } else {
        assert(t.drop_last() =~= s.drop_last().update(i, true));
        lemma_count_false_set(s.drop_last(), i);
    }
}

/// The state of a depth-first search that takes the nodes in increasing order as roots: the
/// stack of nodes being explored, each with how many of its out-edges were explored, the
/// visited nodes, and the first node not yet considered as a root.
pub struct DfsState {
    pub frames: Seq<(usize, nat)>,
    pub seen: Seq<bool>,
    pub next_root: int,
}

/// The state in which a search of a graph with `n` nodes starts.
pub open spec fn dfs_start(n: nat) -> DfsState {
    DfsState { frames: Seq::empty(), seen: Seq::new(n, |i: int| false), next_root: 0 }
}

/// The first node from `k` on that was not visited (the number of nodes if there is none).
pub open spec fn first_unseen(seen: Seq<bool>, k: int) -> int
    decreases seen.len() - k,
{
    if 0 <= k < seen.len() {
        if !seen[k] {
            k
        } else {
            first_unseen(seen, k + 1)
        }
    } else {
        seen.len() as int
    }
}

/// One step of the search: explore the next out-edge of the node on top of the stack, going
/// down to its destination if that was not visited yet; or retreat from that node when all
/// its out-edges were explored; or, with an empty stack, start a new tree at the first node not
/// visited yet; or end.
pub open spec fn dfs_step<G: Graph>(g: G, st: DfsState) -> (DfsState, Option<Visit>) {
    if st.frames.len() > 0 {
        let top = st.frames.len() - 1;
        let u = st.frames[top].0;
        let p = st.frames[top].1;
        let out = g.spec_out(u as int);
        if p < out.len() {
            let dst = out[p as int];
            let frames = st.frames.update(top, (u, p + 1));
            if dst < st.seen.len() && !st.seen[dst as int] {
                (
                    DfsState {
                        frames: frames.push((dst, 0nat)),
                        seen: st.seen.update(dst as int, true),
                        next_root: st.next_root,
                    },
                    Some(Visit::Edge { src: u, dst, status: Status::New }),
                )
            } else {
                (
                    DfsState { frames, seen: st.seen, next_root: st.next_root },
                    Some(Visit::Edge { src: u, dst, status: Status::Repeated }),
                )
            }
        } else {
            (
                DfsState { frames: st.frames.drop_last(), seen: st.seen, next_root: st.next_root },
                Some(
                    Visit::Retreat {
                        u,
                        parent: if top > 0 {
                            Some(st.frames[top - 1].0)
                        } else {
                            None
                        },
                    },
                ),
            )
        }
    } else {
        let k = first_unseen(st.seen, st.next_root);
        if k < st.seen.len() {
            (
                DfsState {
                    frames: seq![(k as usize, 0nat)],
                    seen: st.seen.update(k, true),
                    next_root: k + 1,
                },
                Some(Visit::Root(k as usize)),
            )
        } else {
            (DfsState { frames: st.frames, seen: st.seen, next_root: st.seen.len() as int }, None)
        }
    }
}

/// The number of steps the frames still have to take before they are all retreated from.
pub open spec fn frames_work<G: Graph>(g: G, frames: Seq<(usize, nat)>) -> nat
    decreases frames.len(),
{
    if frames.len() == 0 {
        0
    } else {
        frames_work(g, frames.drop_last()) + (g.spec_out(frames.last().0 as int).len() - frames.last().1) as nat + 1
    }
}

proof fn lemma_first_unseen(seen: Seq<bool>, k: int)
    ensures
        first_unseen(seen, k) <= seen.len(),
        first_unseen(seen, k) < seen.len() ==> 0 <= k <= first_unseen(seen, k) && !seen[first_unseen(seen, k)],
        0 <= k ==> forall|j: int| k <= j < first_unseen(seen, k) ==> #[trigger] seen[j],
    decreases seen.len() - k,
{
    if 0 <= k < seen.len() && seen[k] {
        lemma_first_unseen(seen, k + 1);
    }
}

/// The first unvisited node from `k` on is `x` when every node from `k` up to `x` was
/// visited and `x` was not (or `x` is the number of nodes).
proof fn lemma_first_unseen_at(seen: Seq<bool>, k: int, x: int)
    requires
        0 <= k <= x <= seen.len(),
        forall|j: int| k <= j < x ==> #[trigger] seen[j],
        x < seen.len() ==> !seen[x],
    ensures
        first_unseen(seen, k) == x,
    decreases x - k,
{
    if k < x {
        lemma_first_unseen_at(seen, k + 1, x);
    }
}

/// Each step of the search either visits a new node or leaves less work on the stack.
pub proof fn lemma_dfs_step_decreases<G: Graph>(g: G, st: DfsState)
    ensures
        dfs_step(g, st).1 is Some ==> count_false(dfs_step(g, st).0.seen) < count_false(st.seen) || (
            count_false(dfs_step(g, st).0.seen) == count_false(st.seen)
            && frames_work(g, dfs_step(g, st).0.frames) < frames_work(g, st.frames)),
{
    let (st2, v) = dfs_step(g, st);
    if st.frames.len() > 0 {
        let top = st.frames.len() - 1;
        let u = st.frames[top].0;
        let p = st.frames[top].1;
        let out = g.spec_out(u as int);
        if p < out.len() {
            let dst = out[p as int];
            let frames = st.frames.update(top, (u, p + 1));
            if dst < st.seen.len() && !st.seen[dst as int] {
                lemma_count_false_set(st.seen, dst as int);
            } else {
                assert(frames.drop_last() =~= st.frames.drop_last());
                assert(frames.last() == (u, p + 1));
            }
        }
    } else {
        lemma_first_unseen(st.seen, st.next_root);
        let k = first_unseen(st.seen, st.next_root);
        if k < st.seen.len() {
            lemma_count_false_set(st.seen, k);
        }
    }
}

/// The nodes in the order in which the search retreats from them, from the state `st` on.
pub open spec fn dfs_post<G: Graph>(g: G, st: DfsState) -> Seq<usize>
    decreases count_false(st.seen), frames_work(g, st.frames),
{
    proof {
        lemma_dfs_step_decreases(g, st);
    }
    let next = dfs_step(g, st);
    match next.1 {
        None => Seq::empty(),
        Some(Visit::Retreat { u, parent }) => seq![u] + dfs_post(g, next.0),
        Some(_) => dfs_post(g, next.0),
    }
}

/// The number of steps the frames on the stack still have to take.
spec fn stack_work(s: Seq<StackFrame>) -> nat
    decreases s.len(),
{
    if s.len() == 0 {
        0
    } else {
        stack_work(s.drop_last()) + (s.last().neighbors@.len() - s.last().pos) as nat + 1
    }
}

/// A depth-first search through a graph.
pub struct Dfs<'a, G: Graph> {
    g: &'a G,
    visited: Vec<bool>,
    stack: Vec<StackFrame>,
    roots: Vec<usize>,
    next_root: usize,
}

impl<'a, G: Graph> Dfs<'a, G> {
    /// The graph being searched.
    pub closed spec fn graph(&self) -> G {
        *self.g
    }

    /// The nodes on the stack, from the bottom to the top.
    pub closed spec fn nodes(&self) -> Seq<usize> {
        self.stack@.map_values(|f: StackFrame| f.u)
    }

    /// For each node on the stack, how many of its out-edges were explored.
    pub closed spec fn positions(&self) -> Seq<usize> {
        self.stack@.map_values(|f: StackFrame| f.pos)
    }

    /// Which nodes were visited.
    pub closed spec fn seen(&self) -> Seq<bool> {
        self.visited@
    }

    /// The nodes from which the search starts new trees, in order.
    pub closed spec fn root_list(&self) -> Seq<usize> {
        self.roots@
    }

    /// How many of the roots were already considered.
    pub closed spec fn roots_done(&self) -> int {
        self.next_root as int
    }

    /// The state of the search: its stack, with how far each node's out-edges were explored,
    /// the visited nodes and the next root to consider.
    pub closed spec fn state(&self) -> DfsState {
        DfsState {
            frames: self.stack@.map_values(|f: StackFrame| (f.u, f.pos as nat)),
            seen: self.visited@,
            next_root: self.next_root as int,
        }
    }

    /// The number of nodes not visited yet.
    pub closed spec fn unvisited(&self) -> nat {
        count_false(self.visited@)
    }

    /// The number of steps the frames on the stack still have to take.
    pub closed spec fn work(&self) -> nat {
        stack_work(self.stack@)
    }

    /// The search is in a consistent state.
    pub closed spec fn wf(&self) -> bool {
        let g = *self.g;
        let n = g.spec_num_nodes();
        &&& valid_graph(self.g)
        &&& self.visited@.len() == n
        &&& self.next_root <= self.roots@.len()
        &&& forall|k: int| 0 <= k < self.roots@.len() ==> #[trigger] self.roots@[k] < n
        &&& forall|i: int|
            0 <= i < self.stack@.len() ==> {
                &&& (#[trigger] self.stack@[i]).u < n
                &&& self.stack@[i].neighbors@ == g.spec_out(self.stack@[i].u as int)
                &&& self.stack@[i].pos <= self.stack@[i].neighbors@.len()
                &&& self.visited@[self.stack@[i].u as int]
            }
        &&& forall|i: int, j: int|
            0 <= i < j < self.stack@.len() ==> (#[trigger] self.stack@[i]).u
                != (#[trigger] self.stack@[j]).u
        &&& forall|i: int|
            0 <= i < self.stack@.len() - 1 ==> {
                &&& (#[trigger] self.stack@[i]).pos >= 1
                &&& self.stack@[i + 1].u == self.stack@[i].neighbors@[self.stack@[i].pos - 1]
            }
    }

    /// Facts about the frames that the search keeps.
    pub proof fn lemma_wf(&self)
        requires
            self.wf(),
        ensures
            valid_graph(&self.graph()),
            self.seen().len() == self.graph().spec_num_nodes(),
            self.nodes().len() == self.positions().len(),
            self.roots_done() <= self.root_list().len(),
            forall|k: int| 0 <= k < self.root_list().len() ==> #[trigger] self.root_list()[k] < self.graph().spec_num_nodes(),
            forall|i: int|
                0 <= i < self.nodes().len() ==> {
                    &&& #[trigger] self.nodes()[i] < self.graph().spec_num_nodes()
                    &&& self.positions()[i] <= self.graph().spec_out(self.nodes()[i] as int).len()
                    &&& self.seen()[self.nodes()[i] as int]
                },
            forall|i: int, j: int|
                0 <= i < j < self.nodes().len() ==> #[trigger] self.nodes()[i] != #[trigger] self.nodes()[j],
            forall|i: int|
                0 <= i < self.nodes().len() - 1 ==> {
                    &&& #[trigger] self.positions()[i] >= 1
                    &&& self.nodes()[i + 1] == self.graph().spec_out(self.nodes()[i] as int)[self.positions()[i] - 1]
                },
    {
        assert forall|i: int| 0 <= i < self.nodes().len() implies {
            &&& #[trigger] self.nodes()[i] < self.graph().spec_num_nodes()
            &&& self.positions()[i] <= self.graph().spec_out(self.nodes()[i] as int).len()
            &&& self.seen()[self.nodes()[i] as int]
        } by {
            assert(self.nodes()[i] == self.stack@[i].u);
        }
        assert forall|i: int, j: int|
            0 <= i < j < self.nodes().len() implies #[trigger] self.nodes()[i] != #[trigger] self.nodes()[j] by {
            assert(self.nodes()[i] == self.stack@[i].u);
            assert(self.nodes()[j] == self.stack@[j].u);
        }
        assert forall|i: int| 0 <= i < self.nodes().len() - 1 implies {
            &&& #[trigger] self.positions()[i] >= 1
            &&& self.nodes()[i + 1] == self.graph().spec_out(self.nodes()[i] as int)[self.positions()[i] - 1]
        } by {
            assert(self.nodes()[i] == self.stack@[i].u);
            assert(self.positions()[i] == self.stack@[i].pos);
            assert(self.nodes()[i + 1] == self.stack@[i + 1].u);
        }
    }

    /// Starts a search that visits every node, taking the nodes in increasing order as roots.
    pub fn new(g: &'a G) -> (r: Dfs<'a, G>)
        requires
            valid_graph(g),
        ensures
            r.wf(),
            r.graph() == *g,
            r.nodes().len() == 0,
            r.root_list() == node_range(g.spec_num_nodes()),
            r.roots_done() == 0,
            forall|u: int| 0 <= u < g.spec_num_nodes() ==> !#[trigger] r.seen()[u],
            r.state() == dfs_start(g.spec_num_nodes()),
    {
        let n = g.num_nodes();
        let mut roots: Vec<usize> = Vec::new();
        let mut i: usize = 0;
        while i < n
            invariant
                i <= n,
                roots@ == node_range(i as nat),
            decreases n - i,
        {
            roots.push(i);
            i = i + 1;
            assert(roots@ =~= node_range(i as nat));
        }
        let r = Dfs { g, visited: vec![false; n], stack: Vec::new(), roots, next_root: 0 };
        proof {
            assert(r.state().frames =~= Seq::<(usize, nat)>::empty());
            assert(r.state().seen =~= Seq::new(n as nat, |i: int| false));
        }
        r
    }

    /// Starts a search from the node `root` only.
    pub fn new_from(g: &'a G, root: usize) -> (r: Dfs<'a, G>)
        requires
            valid_graph(g),
            root < g.spec_num_nodes(),
        ensures
            r.wf(),
            r.graph() == *g,
            r.nodes().len() == 0,
            r.root_list() == seq![root],
            r.roots_done() == 0,
            forall|u: int| 0 <= u < g.spec_num_nodes() ==> !#[trigger] r.seen()[u],
    {
        let n = g.num_nodes();
        let mut roots: Vec<usize> = Vec::new();
        roots.push(root);
        Dfs { g, visited: vec![false; n], stack: Vec::new(), roots, next_root: 0 }
    }

    /// Finds the next root that was not visited yet.
    fn next_root(&mut self) -> (r: Option<usize>)
        requires
            old(self).wf(),
        ensures
            final(self).wf(),
            final(self).g == old(self).g,
            final(self).stack@ == old(self).stack@,
            final(self).visited@ == old(self).visited@,
            final(self).roots@ == old(self).roots@,
            old(self).next_root <= final(self).next_root,
            forall|k: int|
                old(self).next_root <= k < final(self).next_root - 1 ==> old(self).visited@[#[trigger] old(self).roots@[k] as int],
            match r {
                Some(u) => {
                    &&& final(self).next_root >= 1
                    &&& old(self).next_root < final(self).next_root
                    &&& u == old(self).roots@[final(self).next_root - 1]
                    &&& !old(self).visited@[u as int]
                },
                None => {
                    &&& final(self).next_root == old(self).roots@.len()
                    &&& forall|k: int|
                        old(self).next_root <= k < old(self).roots@.len() ==> old(self).visited@[#[trigger] old(self).roots@[k] as int]
                },
            },
    {
        while self.next_root < self.roots.len()
            invariant
                self.wf(),
                self.g == old(self).g,
                self.stack@ == old(self).stack@,
                self.visited@ == old(self).visited@,
                self.roots@ == old(self).roots@,
                old(self).next_root <= self.next_root,
                forall|k: int|
                    old(self).next_root <= k < self.next_root ==> old(self).visited@[#[trigger] old(self).roots@[k] as int],
            decreases self.roots@.len() - self.next_root,
        {
            let root = self.roots[self.next_root];
            self.next_root = self.next_root + 1;
            if !self.visited[root] {
                return Some(root);
            }
        }
        None
    }

    /// The node currently being explored, if any.
    fn cur_node(&self) -> (r: Option<usize>)
        ensures
            r == if self.stack@.len() > 0 {
                Some(self.stack@.last().u)
            } else {
                None::<usize>
            },
    {
        let len = self.stack.len();
        if len > 0 {
            Some(self.stack[len - 1].u)
        } else {
            None
        }
    }

    /// Takes the next step of the search, or returns `None` if the search is over.
    pub fn next(&mut self) -> (r: Option<Visit>)
        requires
            old(self).wf(),
        ensures
            final(self).wf(),
            final(self).graph() == old(self).graph(),
            final(self).root_list() == old(self).root_list(),
            old(self).roots_done() <= final(self).roots_done(),
            old(self).root_list() == node_range(old(self).graph().spec_num_nodes()) ==> final(self).state()
                == dfs_step(old(self).graph(), old(self).state()).0 && r == dfs_step(old(self).graph(), old(self).state()).1,
            r is Some ==> final(self).unvisited() < old(self).unvisited() || (final(self).unvisited()
                == old(self).unvisited() && final(self).work() < old(self).work()),
            match r {
                Some(Visit::Edge { src, dst, status }) => {
                    let top = old(self).nodes().len() - 1;
                    let p = old(self).positions()[top];
                    &&& old(self).nodes().len() > 0
                    &&& src == old(self).nodes()[top]
                    &&& p < old(self).graph().spec_out(src as int).len()
                    &&& dst == old(self).graph().spec_out(src as int)[p as int]
                    &&& final(self).roots_done() == old(self).roots_done()
                    &&& (status == Status::New <==> !old(self).seen()[dst as int])
                    &&& final(self).seen() == old(self).seen().update(dst as int, true)
                    &&& status == Status::New ==> {
                        &&& final(self).nodes() == old(self).nodes().push(dst)
                        &&& final(self).positions() == old(self).positions().update(top, (p + 1) as usize).push(0)
                    }
                    &&& status == Status::Repeated ==> {
                        &&& final(self).nodes() == old(self).nodes()
                        &&& final(self).positions() == old(self).positions().update(top, (p + 1) as usize)
                    }
                },
                Some(Visit::Retreat { u, parent }) => {
                    let top = old(self).nodes().len() - 1;
                    &&& old(self).nodes().len() > 0
                    &&& u == old(self).nodes()[top]
                    &&& old(self).positions()[top] == old(self).graph().spec_out(u as int).len()
                    &&& final(self).nodes() == old(self).nodes().drop_last()
                    &&& final(self).positions() == old(self).positions().drop_last()
                    &&& final(self).seen() == old(self).seen()
                    &&& final(self).roots_done() == old(self).roots_done()
                    &&& parent == if top > 0 {
                        Some(old(self).nodes()[top - 1])
                    } else {
                        None::<usize>
                    }
                },
                Some(Visit::Root(u)) => {
                    &&& old(self).nodes().len() == 0
                    &&& !old(self).seen()[u as int]
                    &&& final(self).roots_done() >= 1
                    &&& u == old(self).root_list()[final(self).roots_done() - 1]
                    &&& forall|k: int|
                        old(self).roots_done() <= k < final(self).roots_done() - 1 ==> old(self).seen()[#[trigger] old(self).root_list()[k] as int]
                    &&& final(self).nodes() == seq![u]
                    &&& final(self).positions() == seq![0usize]
                    &&& final(self).seen() == old(self).seen().update(u as int, true)
                },
                None => {
                    &&& old(self).nodes().len() == 0
                    &&& final(self).nodes().len() == 0
                    &&& final(self).seen() == old(self).seen()
                    &&& final(self).roots_done() == old(self).root_list().len()
                    &&& forall|k: int|
                        old(self).roots_done() <= k < old(self).root_list().len() ==> old(self).seen()[#[trigger] old(self).root_list()[k] as int]
                },
            },
    {
        let len = self.stack.len();
        if len > 0 {
            let cur = self.stack[len - 1].u;
            let pos = self.stack[len - 1].pos;
            if pos < self.stack[len - 1].neighbors.len() {
                let next = self.stack[len - 1].neighbors[pos];
                let ghost old_stack = self.stack@;
                let mut frame = self.stack.pop().unwrap();
                frame.pos = pos + 1;
                self.stack.push(frame);
                proof {
                    assert(self.stack@.drop_last() =~= old_stack.drop_last());
                    assert(self.nodes() =~= old(self).nodes());
                    assert(self.positions() =~= old(self).positions().update(len - 1, (pos + 1) as usize));
                }
                proof {
                    let st = old(self).state();
                    assert(st.frames[len - 1] == (cur, pos as nat));
                    assert(self.state().frames =~= st.frames.update(len - 1, (cur, pos as nat + 1)));
                }
                if self.visited[next] {
                    assert(self.visited@ =~= old(self).visited@.update(next as int, true));
                    Some(Visit::Edge { src: cur, dst: next, status: Status::Repeated })
                } else {
                    let ghost mid_stack = self.stack@;
                    let f = StackFrame::new(self.g, next);
                    self.stack.push(f);
                    self.visited.set(next, true);
                    proof {
                        lemma_count_false_set(old(self).visited@, next as int);
                        assert(self.stack@.drop_last() =~= mid_stack);
                        let st = old(self).state();
                        assert(self.state().frames =~= st.frames.update(len - 1, (cur, pos as nat + 1)).push((next, 0nat)));
                        assert(self.nodes() =~= old(self).nodes().push(next));
                        assert(self.positions() =~= old(self).positions().update(len - 1, (pos + 1) as usize).push(0));
                    }
                    Some(Visit::Edge { src: cur, dst: next, status: Status::New })
                }
            } else {
                let ghost old_stack = self.stack@;
                self.stack.pop();
                proof {
                    assert(self.stack@ =~= old_stack.drop_last());
                    assert(self.nodes() =~= old(self).nodes().drop_last());
                    assert(self.positions() =~= old(self).positions().drop_last());
                    assert(self.state().frames =~= old(self).state().frames.drop_last());
                    assert(old(self).state().frames[len - 1] == (cur, pos as nat));
                    if len > 1 {
                        assert(old(self).state().frames[len - 2].0 == self.stack@[len - 2].u);
                    }
                }
                let parent = self.cur_node();
                Some(Visit::Retreat { u: cur, parent })
            }
        } else {
            match self.next_root() {
                Some(root) => {
                    let f = StackFrame::new(self.g, root);
                    self.stack.push(f);
                    self.visited.set(root, true);
                    proof {
                        lemma_count_false_set(old(self).visited@, root as int);
                        assert(self.nodes() =~= seq![root]);
                        assert(self.positions() =~= seq![0usize]);
                        assert(self.state().frames =~= seq![(root, 0nat)]);
                        if old(self).roots@ == node_range(old(self).visited@.len()) {
                            assert(old(self).roots@[self.next_root - 1] == self.next_root - 1);
                            assert forall|j: int| old(self).next_root <= j < root implies #[trigger] old(self).visited@[j] by {
                                assert(old(self).roots@[j] == j);
                            }
                            lemma_first_unseen_at(old(self).visited@, old(self).next_root as int, root as int);
                        }
                    }
                    Some(Visit::Root(root))
                },
                None => {
                    proof {
                        if old(self).roots@ == node_range(old(self).visited@.len()) {
                            assert forall|j: int| old(self).next_root <= j < old(self).visited@.len() implies #[trigger] old(self).visited@[j] by {
                                assert(old(self).roots@[j] == j);
                            }
                            lemma_first_unseen_at(old(self).visited@, old(self).next_root as int, old(self).visited@.len() as int);
                        }
                    }
                    None
                },
            }
        }
    }
}

} // verus!
