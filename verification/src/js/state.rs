//! The state of a JavaScript lowering, with the operations every construct
//! shares.

use vstd::prelude::*;

use crate::ir::{node_views, succs_in_range, Node, NodeView, VarId};
use crate::js::facts::{key_views, SymbolKey};
use crate::js::model::{
    break_taken, chain_from, continue_taken, edge, entered_at, first_behind, fresh, link, link_from,
    loop_closed, loop_meant, loop_opened, next_node, position_of, pushed, switch_opened, temp, var,
    vars_added, vars_listed, JsLoopView, JsWalk,
};
use crate::js::source::opt_text;
use crate::text::same;
use crate::ts::state::add_var;

verus! {

pub(crate) struct JsLoop {
    label: Option<String>,
    target: Option<usize>,
    breaks: Vec<usize>,
    continues: Vec<usize>,
}

impl View for JsLoop {
    type V = JsLoopView;

    closed spec fn view(&self) -> JsLoopView {
        JsLoopView {
            label: opt_text(self.label),
            target: self.target,
            breaks: self.breaks@,
            continues: self.continues@,
        }
    }
}

/// Per-function lowering state.
pub(crate) struct JsState {
    nodes: Vec<Node>,
    vars: Vec<SymbolKey>,
    next_temp: u32,
    loops: Vec<JsLoop>,
    pending: Option<String>,
}

impl View for JsState {
    type V = JsWalk;

    closed spec fn view(&self) -> JsWalk {
        JsWalk {
            nodes: node_views(self.nodes@),
            vars: key_views(self.vars@),
            next_temp: self.next_temp,
            loops: self.loops@.map_values(|l: JsLoop| l@),
            pending: opt_text(self.pending),
        }
    }
}

/// Whether every id is that of a node.
pub open spec fn in_range(w: JsWalk, ids: Seq<usize>) -> bool {
    forall|k: int| 0 <= k < ids.len() ==> #[trigger] ids[k] < w.nodes.len()
}

/// Whether what a loop remembers are nodes.
pub open spec fn loop_ok(w: JsWalk, l: JsLoopView) -> bool {
    &&& l.target matches Some(t) ==> t < w.nodes.len()
    &&& in_range(w, l.breaks)
    &&& in_range(w, l.continues)
}

/// What every operation keeps: the number of nodes is a node id, and every
/// edge and everything that a loop remembers is that of a node.
pub open spec fn sound(w: JsWalk) -> bool {
    &&& w.nodes.len() <= usize::MAX
    &&& succs_in_range(w.nodes)
    &&& forall|k: int| 0 <= k < w.loops.len() ==> loop_ok(w, #[trigger] w.loops[k])
}

/// What holds between the states before and after a construct: nodes are only
/// added, and the loops that were open still are.
pub open spec fn grown(before: JsWalk, after: JsWalk) -> bool {
    &&& sound(after)
    &&& before.nodes.len() <= after.nodes.len()
    &&& before.loops.len() == after.loops.len()
}

/// Ids in range stay in range.
pub broadcast proof fn lemma_in_range_grows(before: JsWalk, after: JsWalk, ids: Seq<usize>)
    requires
        #[trigger] in_range(before, ids),
        #[trigger] grown(before, after),
    ensures
        in_range(after, ids),
{
}

pub broadcast proof fn lemma_grown_trans(a: JsWalk, b: JsWalk, c: JsWalk)
    requires
        #[trigger] grown(a, b),
        #[trigger] grown(b, c),
    ensures
        grown(a, c),
{
}

proof fn lemma_loops_kept(w: JsWalk, w1: JsWalk)
    requires
        sound(w),
        w1.loops == w.loops,
        w.nodes.len() <= w1.nodes.len(),
    ensures
        forall|k: int| 0 <= k < w1.loops.len() ==> loop_ok(w1, #[trigger] w1.loops[k]),
{
    assert forall|k: int| 0 <= k < w1.loops.len() implies loop_ok(w1, #[trigger] w1.loops[k]) by {
        assert(loop_ok(w, w.loops[k]));
    }
}

proof fn lemma_edge(w: JsWalk, from: usize, to: usize)
    requires
        sound(w),
        from < w.nodes.len(),
        to < w.nodes.len(),
    ensures
        grown(w, edge(w, from, to)),
        edge(w, from, to).nodes.len() == w.nodes.len(),
{
    let w1 = edge(w, from, to);
    let n = w.nodes[from as int];
    lemma_loops_kept(w, w1);
    if !n.succs.contains(to) {
        assert forall|m: int, k: int|
            0 <= m < w1.nodes.len() && 0 <= k < w1.nodes[m].succs.len() implies
            #[trigger] w1.nodes[m].succs[k] < w1.nodes.len() by {
            if m == from as int {
                if k < n.succs.len() {
                    assert(w1.nodes[m].succs[k] == w.nodes[m].succs[k]);
                }
            } else {
                assert(w1.nodes[m] == w.nodes[m]);
            }
        }
    }
}

proof fn lemma_pushed(w: JsWalk, n: NodeView)
    requires
        sound(w),
        n.succs.len() == 0,
        w.nodes.len() < usize::MAX,
    ensures
        grown(w, pushed(w, n)),
{
    let w1 = pushed(w, n);
    lemma_loops_kept(w, w1);
    assert forall|m: int, k: int|
        0 <= m < w1.nodes.len() && 0 <= k < w1.nodes[m].succs.len() implies
        #[trigger] w1.nodes[m].succs[k] < w1.nodes.len() by {
        assert(m < w.nodes.len());
        assert(w1.nodes[m] == w.nodes[m]);
        assert(w.nodes[m].succs[k] < w.nodes.len());
    }
}

impl JsState {
    pub(crate) fn new() -> (r: Self)
        ensures
            r@ == fresh(),
            sound(r@),
    {
        let r = JsState {
            nodes: Vec::new(),
            vars: Vec::new(),
            next_temp: 0,
            loops: Vec::new(),
            pending: None,
        };
        assert(r@ =~= fresh());
        r
    }

    pub(crate) fn finish(self) -> (r: Vec<Node>)
        ensures
            node_views(r@) == self@.nodes,
    {
        self.nodes
    }

    pub(crate) fn count(&self) -> (r: usize)
        ensures
            r == self@.nodes.len(),
            r == next_node(self@),
    {
        self.nodes.len()
    }

    pub(crate) fn push(&mut self, node: Node) -> (r: usize)
        requires
            sound(old(self)@),
            node@.succs.len() == 0,
        ensures
            final(self)@ == pushed(old(self)@, node@),
            r == next_node(old(self)@),
            r < final(self)@.nodes.len(),
            grown(old(self)@, final(self)@),
    {
        let ghost before = self.nodes@;
        let id: usize = self.nodes.len();
        self.nodes.push(node);
        let after: usize = self.nodes.len();
        proof {
            assert(node_views(self.nodes@) =~= node_views(before).push(node@));
            assert(after <= usize::MAX);
            lemma_pushed(old(self)@, node@);
        }
        id
    }

    /// Where control came from the open nodes, the first of which is `head`, to
    /// what was added from `first` on.
    pub(crate) fn entered_at(
        &self,
        head: Option<usize>,
        first: usize,
        Ghost(open): Ghost<Seq<usize>>,
    ) -> (r: usize)
        requires
            sound(self@),
            in_range(self@, open),
            first < self@.nodes.len(),
            head == (if open.len() > 0 {
                Some(open[0])
            } else {
                None
            }),
        ensures
            r == entered_at(self@, open, first),
            r < self@.nodes.len(),
    {
        match head {
            None => first,
            Some(h) => {
                assert(self@.nodes[h as int] == self.nodes@[h as int]@);
                let succs = &self.nodes[h].succs;
                let mut k: usize = 0;
                while k < succs.len()
                    invariant
                        sound(self@),
                        h < self@.nodes.len(),
                        open.len() > 0,
                        open[0] == h,
                        succs@ == self@.nodes[h as int].succs,
                        k <= succs.len(),
                        first_behind(succs@, first, 0) == first_behind(succs@, first, k as int),
                    decreases succs.len() - k,
                {
                    if succs[k] >= first {
                        assert(self@.nodes[h as int].succs[k as int] < self@.nodes.len());
                        return succs[k];
                    }
                    k += 1;
                }
                first
            },
        }
    }

    /// Adds an edge unless it is there.
    pub(crate) fn edge(&mut self, from: usize, to: usize)
        requires
            sound(old(self)@),
            from < old(self)@.nodes.len(),
            to < old(self)@.nodes.len(),
        ensures
            final(self)@ == edge(old(self)@, from, to),
            final(self)@.nodes.len() == old(self)@.nodes.len(),
            grown(old(self)@, final(self)@),
    {
        proof {
            lemma_edge(self@, from, to);
        }
        let ghost before = self.nodes@;
        if !crate::ts::tree::has_index(self.nodes[from].succs.as_slice(), to) {
            self.nodes[from].succs.push(to);
            proof {
                assert(node_views(self.nodes@) =~= node_views(before).update(
                    from as int,
                    NodeView {
                        succs: before[from as int].succs@.push(to),
                        ..before[from as int]@
                    },
                ));
            }
        }
    }

    /// Adds edges from every node of `from` to `to`.
    pub(crate) fn link(&mut self, from: &[usize], to: usize)
        requires
            sound(old(self)@),
            in_range(old(self)@, from@),
            to < old(self)@.nodes.len(),
        ensures
            final(self)@ == link(old(self)@, from@, to),
            final(self)@.nodes.len() == old(self)@.nodes.len(),
            grown(old(self)@, final(self)@),
    {
        let ghost before = self@;
        let mut k: usize = 0;
        while k < from.len()
            invariant
                k <= from.len(),
                grown(before, self@),
                before.nodes.len() == self@.nodes.len(),
                in_range(before, from@),
                to < before.nodes.len(),
                link(before, from@, to) == link_from(self@, from@, k as int, to),
            decreases from.len() - k,
        {
            self.edge(from[k], to);
            k += 1;
        }
    }

    /// Adds an edge from each node to the next.
    pub(crate) fn chain(&mut self, ids: &Vec<usize>)
        requires
            sound(old(self)@),
            in_range(old(self)@, ids@),
        ensures
            final(self)@ == chain_from(old(self)@, ids@, 0),
            final(self)@.nodes.len() == old(self)@.nodes.len(),
            grown(old(self)@, final(self)@),
    {
        let ghost before = self@;
        let mut k: usize = 1;
        while k < ids.len()
            invariant
                1 <= k,
                grown(before, self@),
                before.nodes.len() == self@.nodes.len(),
                in_range(before, ids@),
                chain_from(before, ids@, 0) == chain_from(self@, ids@, k - 1),
            decreases ids.len() - k,
        {
            self.edge(ids[k - 1], ids[k]);
            k += 1;
        }
    }

    /// The variable of a key.
    pub(crate) fn var(&mut self, key: &SymbolKey) -> (r: VarId)
        requires
            sound(old(self)@),
        ensures
            (final(self)@, r) == var(old(self)@, key@),
            grown(old(self)@, final(self)@),
            final(self)@.nodes.len() == old(self)@.nodes.len(),
    {
        let ghost w = self@;
        let mut k: usize = 0;
        let n: usize = self.vars.len();
        while k < n && !self.vars[k].equals(key)
            invariant
                self@ == w,
                n == self.vars.len(),
                k <= n,
                position_of(w.vars, key@, 0) == position_of(w.vars, key@, k as int),
            decreases n - k,
        {
            assert(w.vars[k as int] == self.vars@[k as int]@);
            k += 1;
        }
        let id: VarId = if k >= 0xffff_ffff {
            0xffff_ffff
        } else {
            k as u32
        };
        if k >= n {
            let ghost before = self.vars@;
            self.vars.push(key.copy());
            proof {
                assert(key_views(self.vars@) =~= key_views(before).push(key@));
                lemma_loops_kept(w, self@);
            }
        } else {
            assert(w.vars[k as int] == self.vars@[k as int]@);
        }
        id
    }

    /// A variable for a call's result.
    pub(crate) fn temp(&mut self) -> (r: VarId)
        requires
            sound(old(self)@),
        ensures
            (final(self)@, r) == temp(old(self)@),
            grown(old(self)@, final(self)@),
            final(self)@.nodes.len() == old(self)@.nodes.len(),
    {
        let ghost w = self@;
        self.next_temp = self.next_temp.wrapping_add(1);
        let t: u32 = self.next_temp;
        proof {
            lemma_loops_kept(w, self@);
        }
        self.var(&SymbolKey::Temp(t))
    }

    /// Adds the variables of the keys to the list.
    pub(crate) fn add_vars(&mut self, keys: &Vec<SymbolKey>, out: &mut Vec<VarId>)
        requires
            sound(old(self)@),
        ensures
            (final(self)@, final(out)@) == vars_added(
                old(self)@,
                key_views(keys@),
                0,
                old(out)@,
            ),
            grown(old(self)@, final(self)@),
            final(self)@.nodes.len() == old(self)@.nodes.len(),
    {
        let ghost w = self@;
        let ghost list = out@;
        let ghost all = key_views(keys@);
        let mut k: usize = 0;
        while k < keys.len()
            invariant
                k <= keys.len(),
                all == key_views(keys@),
                grown(w, self@),
                w.nodes.len() == self@.nodes.len(),
                vars_added(w, all, 0, list) == vars_added(self@, all, k as int, out@),
            decreases keys.len() - k,
        {
            let ghost mid = self@;
            assert(all[k as int] == keys@[k as int]@);
            let v: VarId = self.var(&keys[k]);
            add_var(out, v);
            proof {
                lemma_grown_trans(w, mid, self@);
            }
            k += 1;
        }
    }

    /// The variables of the keys, in order.
    pub(crate) fn list_vars(&mut self, keys: &Vec<SymbolKey>) -> (r: Vec<VarId>)
        requires
            sound(old(self)@),
        ensures
            (final(self)@, r@) == vars_listed(old(self)@, key_views(keys@), 0, Seq::empty()),
            grown(old(self)@, final(self)@),
            final(self)@.nodes.len() == old(self)@.nodes.len(),
    {
        let ghost w = self@;
        let ghost all = key_views(keys@);
        let mut out: Vec<VarId> = Vec::new();
        let mut k: usize = 0;
        while k < keys.len()
            invariant
                k <= keys.len(),
                all == key_views(keys@),
                grown(w, self@),
                w.nodes.len() == self@.nodes.len(),
                vars_listed(w, all, 0, Seq::empty()) == vars_listed(self@, all, k as int, out@),
            decreases keys.len() - k,
        {
            let ghost mid = self@;
            assert(all[k as int] == keys@[k as int]@);
            let v: VarId = self.var(&keys[k]);
            out.push(v);
            proof {
                lemma_grown_trans(w, mid, self@);
            }
            k += 1;
        }
        out
    }

    pub(crate) fn set_pending(&mut self, label: String)
        requires
            sound(old(self)@),
        ensures
            final(self)@ == (JsWalk { pending: Some(label@), ..old(self)@ }),
            grown(old(self)@, final(self)@),
            final(self)@.nodes.len() == old(self)@.nodes.len(),
    {
        self.pending = Some(label);
        proof {
            lemma_loops_kept(old(self)@, self@);
        }
    }

    fn push_loop(&mut self, label: Option<String>, target: Option<usize>)
        requires
            sound(old(self)@),
            target matches Some(t) ==> t < old(self)@.nodes.len(),
        ensures
            final(self)@ == (JsWalk {
                loops: old(self)@.loops.push(
                    JsLoopView {
                        label: opt_text(label),
                        target,
                        breaks: Seq::empty(),
                        continues: Seq::empty(),
                    },
                ),
                ..old(self)@
            }),
            sound(final(self)@),
    {
        let ghost w = self@;
        let ghost before = self.loops@;
        let l = JsLoop { label, target, breaks: Vec::new(), continues: Vec::new() };
        let ghost lv = JsLoopView {
            label: opt_text(label),
            target,
            breaks: Seq::empty(),
            continues: Seq::empty(),
        };
        assert(l@ =~= lv);
        self.loops.push(l);
        proof {
            assert(self.loops@.map_values(|l: JsLoop| l@) =~= before.map_values(
                |l: JsLoop| l@,
            ).push(lv));
            assert forall|k: int| 0 <= k < self@.loops.len() implies loop_ok(
                self@,
                #[trigger] self@.loops[k],
            ) by {
                if k < w.loops.len() {
                    assert(self@.loops[k] == w.loops[k]);
                    assert(loop_ok(w, w.loops[k]));
                }
            }
        }
    }

    /// Opens a loop, which takes the label that is pending.
    pub(crate) fn open_loop(&mut self, target: Option<usize>)
        requires
            sound(old(self)@),
            target matches Some(t) ==> t < old(self)@.nodes.len(),
        ensures
            final(self)@ == loop_opened(old(self)@, target),
            sound(final(self)@),
    {
        let ghost w = self@;
        let label = self.pending.take();
        proof {
            assert(self@ =~= (JsWalk { pending: None, ..w }));
            lemma_loops_kept(w, self@);
        }
        self.push_loop(label, target);
    }

    /// Opens a switch.
    pub(crate) fn open_switch(&mut self)
        requires
            sound(old(self)@),
        ensures
            final(self)@ == switch_opened(old(self)@),
            sound(final(self)@),
    {
        self.push_loop(None, None);
    }

    /// Closes the innermost loop; returns its breaks and its continues.
    pub(crate) fn close_loop(&mut self) -> (r: (Vec<usize>, Vec<usize>))
        requires
            sound(old(self)@),
            old(self)@.loops.len() > 0,
        ensures
            final(self)@ == loop_closed(old(self)@).0,
            r.0@ == loop_closed(old(self)@).1.breaks,
            r.1@ == loop_closed(old(self)@).1.continues,
            sound(final(self)@),
            in_range(final(self)@, r.0@),
            in_range(final(self)@, r.1@),
            final(self)@.nodes.len() == old(self)@.nodes.len(),
            final(self)@.loops.len() == old(self)@.loops.len() - 1,
    {
        let ghost w = self@;
        let ghost before = self.loops@;
        let popped = self.loops.pop();
        proof {
            assert(self.loops@.map_values(|l: JsLoop| l@) =~= before.map_values(
                |l: JsLoop| l@,
            ).drop_last());
            assert(w.loops.last() == before.last()@);
            assert(loop_ok(w, w.loops[w.loops.len() - 1]));
            assert forall|k: int| 0 <= k < self@.loops.len() implies loop_ok(
                self@,
                #[trigger] self@.loops[k],
            ) by {
                assert(self@.loops[k] == w.loops[k]);
                assert(loop_ok(w, w.loops[k]));
            }
        }
        match popped {
            Some(l) => (l.breaks, l.continues),
            None => (Vec::new(), Vec::new()),
        }
    }

    /// The innermost loop that a label means.
    fn find_loop(&self, label: Option<&str>) -> (r: Option<usize>)
        ensures
            match r {
                Some(k) => loop_meant(
                    self@.loops,
                    match label {
                        Some(l) => Some(l@),
                        None => None,
                    },
                    self@.loops.len() as int,
                ) == Some(k as int) && k < self@.loops.len(),
                None => loop_meant(
                    self@.loops,
                    match label {
                        Some(l) => Some(l@),
                        None => None,
                    },
                    self@.loops.len() as int,
                ) is None,
            },
    {
        let ghost lv: Option<Seq<char>> = match label {
            Some(l) => Some(l@),
            None => None,
        };
        let mut k: usize = self.loops.len();
        while k > 0
            invariant
                k <= self.loops.len(),
                lv == (match label {
                    Some(l) => Some(l@),
                    None => None,
                }),
                loop_meant(self@.loops, lv, self@.loops.len() as int) == loop_meant(
                    self@.loops,
                    lv,
                    k as int,
                ),
            decreases k,
        {
            assert(self@.loops[k - 1] == self.loops@[k - 1]@);
            let hit: bool = match label {
                None => true,
                Some(l) => match &self.loops[k - 1].label {
                    Some(own) => same(own.as_str(), l),
                    None => false,
                },
            };
            if hit {
                return Some(k - 1);
            }
            k -= 1;
        }
        None
    }

    pub(crate) fn take_break(&mut self, label: Option<&str>, node: usize)
        requires
            sound(old(self)@),
            node < old(self)@.nodes.len(),
        ensures
            final(self)@ == break_taken(
                old(self)@,
                match label {
                    Some(l) => Some(l@),
                    None => None,
                },
                node,
            ),
            grown(old(self)@, final(self)@),
            final(self)@.nodes.len() == old(self)@.nodes.len(),
    {
        let ghost w = self@;
        let ghost before = self.loops@;
        if let Some(k) = self.find_loop(label) {
            self.loops[k].breaks.push(node);
            proof {
                let l = w.loops[k as int];
                assert(l == before[k as int]@);
                let l1 = JsLoopView { breaks: l.breaks.push(node), ..l };
                assert(self.loops@.map_values(|l: JsLoop| l@) =~= before.map_values(
                    |l: JsLoop| l@,
                ).update(k as int, l1));
                lemma_loop_changed(w, self@, k as int, l1, node);
            }
        }
    }

    pub(crate) fn take_continue(&mut self, label: Option<&str>, node: usize)
        requires
            sound(old(self)@),
            node < old(self)@.nodes.len(),
        ensures
            final(self)@ == continue_taken(
                old(self)@,
                match label {
                    Some(l) => Some(l@),
                    None => None,
                },
                node,
            ),
            grown(old(self)@, final(self)@),
            final(self)@.nodes.len() == old(self)@.nodes.len(),
    {
        let ghost w = self@;
        let ghost before = self.loops@;
        if let Some(k) = self.find_loop(label) {
            assert(w.loops[k as int] == before[k as int]@);
            assert(loop_ok(w, w.loops[k as int]));
            match self.loops[k].target {
                Some(t) => {
                    self.edge(node, t);
                },
                None => {
                    self.loops[k].continues.push(node);
                    proof {
                        let l = w.loops[k as int];
                        let l1 = JsLoopView { continues: l.continues.push(node), ..l };
                        assert(self.loops@.map_values(|l: JsLoop| l@) =~= before.map_values(
                            |l: JsLoop| l@,
                        ).update(k as int, l1));
                        lemma_loop_changed(w, self@, k as int, l1, node);
                    }
                },
            }
        }
    }
}

/// A loop that remembers one node more still remembers nodes.
proof fn lemma_loop_changed(w: JsWalk, w1: JsWalk, k: int, l1: JsLoopView, n: usize)
    requires
        sound(w),
        0 <= k < w.loops.len(),
        n < w.nodes.len(),
        w1.nodes == w.nodes,
        w1.loops == w.loops.update(k, l1),
        l1.target == w.loops[k].target,
        l1.breaks == w.loops[k].breaks || l1.breaks == w.loops[k].breaks.push(n),
        l1.continues == w.loops[k].continues || l1.continues == w.loops[k].continues.push(n),
    ensures
        sound(w1),
{
    assert forall|j: int| 0 <= j < w1.loops.len() implies loop_ok(w1, #[trigger] w1.loops[j]) by {
        assert(loop_ok(w, w.loops[j]));
        if j == k {
            assert forall|x: int| 0 <= x < l1.breaks.len() implies #[trigger] l1.breaks[x]
                < w1.nodes.len() by {
                if x < w.loops[k].breaks.len() {
                    assert(l1.breaks[x] == w.loops[k].breaks[x]);
                }
            }
            assert forall|x: int| 0 <= x < l1.continues.len() implies #[trigger] l1.continues[x]
                < w1.nodes.len() by {
                if x < w.loops[k].continues.len() {
                    assert(l1.continues[x] == w.loops[k].continues[x]);
                }
            }
        } else {
            assert(w1.loops[j] == w.loops[j]);
        }
    }
}

} // verus!
