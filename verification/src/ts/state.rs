//! The state of a lowering, with the operations every construct shares.

use vstd::prelude::*;

use crate::ir::{node_views, succs_in_range, Node, NodeView, VarId};
use crate::text::same;
use crate::ts::model::{
    allocated, break_taken, chain_from, continue_taken, edge, fresh, in_scopes, link, link_from,
    loop_closed, loop_opened, next_node, pushed, resolved, scope_popped, scope_pushed, with_var,
    DiagnosticView, LoopView, Walk,
};

verus! {

/// One function whose body degraded because of a parse error.
///
/// Reported, never silent: a parse error inside a function body only
/// degrades that function, and this is how a caller finds out which one.
#[derive(Debug, Clone)]
pub struct Diagnostic {
    /// The affected function's name.
    pub function: String,
    /// What went wrong.
    pub message: String,
}

impl View for Diagnostic {
    type V = DiagnosticView;

    open spec fn view(&self) -> DiagnosticView {
        DiagnosticView { function: self.function@, message: self.message@ }
    }
}

/// The views of a list of diagnostics.
pub open spec fn diagnostic_views(v: Seq<Diagnostic>) -> Seq<DiagnosticView> {
    v.map_values(|d: Diagnostic| d@)
}

/// Names with their variables.
pub(crate) struct Names {
    entries: Vec<(String, VarId)>,
}

/// The map that a list of entries stands for: a later one replaces an
/// earlier one of the same name.
pub open spec fn names_map(entries: Seq<(String, VarId)>) -> Map<Seq<char>, VarId>
    decreases entries.len(),
{
    if entries.len() == 0 {
        Map::empty()
    } else {
        names_map(entries.drop_last()).insert(entries.last().0@, entries.last().1)
    }
}

impl View for Names {
    type V = Map<Seq<char>, VarId>;

    closed spec fn view(&self) -> Map<Seq<char>, VarId> {
        names_map(self.entries@)
    }
}

impl Names {
    pub(crate) fn new() -> (r: Self)
        ensures
            r@ == Map::<Seq<char>, VarId>::empty(),
    {
        Names { entries: Vec::new() }
    }

    pub(crate) fn get(&self, name: &str) -> (r: Option<VarId>)
        ensures
            match r {
                Some(v) => self@.contains_key(name@) && self@[name@] == v,
                None => !self@.contains_key(name@),
            },
    {
        let mut k: usize = self.entries.len();
        assert(self.entries@.take(k as int) =~= self.entries@);
        while k > 0
            invariant
                k <= self.entries.len(),
                self@.contains_key(name@) == names_map(self.entries@.take(k as int)).contains_key(
                    name@,
                ),
                self@.contains_key(name@) ==> self@[name@] == names_map(
                    self.entries@.take(k as int),
                )[name@],
            decreases k,
        {
            proof {
                assert(self.entries@.take(k as int).drop_last() =~= self.entries@.take(k - 1));
                assert(self.entries@.take(k as int).last() == self.entries@[k - 1]);
            }
            k -= 1;
            if same(self.entries[k].0.as_str(), name) {
                return Some(self.entries[k].1);
            }
        }
        assert(self.entries@.take(0) =~= Seq::empty());
        None
    }

    pub(crate) fn insert(&mut self, name: String, v: VarId)
        ensures
            final(self)@ == old(self)@.insert(name@, v),
    {
        let ghost before = self.entries@;
        self.entries.push((name, v));
        assert(self.entries@.drop_last() =~= before);
    }
}

pub(crate) struct LoopCtx {
    continue_target: usize,
    breaks: Vec<usize>,
}

impl View for LoopCtx {
    type V = LoopView;

    closed spec fn view(&self) -> LoopView {
        LoopView { continue_target: self.continue_target, breaks: self.breaks@ }
    }
}

/// Per-function lowering state.
pub(crate) struct FnState {
    nodes: Vec<Node>,
    /// Innermost scope last.
    scopes: Vec<Names>,
    /// Ambient names, function-wide.
    globals: Names,
    next_var: VarId,
    /// Whether the numbers have wrapped round.
    spent: Ghost<bool>,
    loops: Vec<LoopCtx>,
    diagnostics: Vec<Diagnostic>,
}

impl View for FnState {
    type V = Walk;

    closed spec fn view(&self) -> Walk {
        Walk {
            nodes: node_views(self.nodes@),
            scopes: self.scopes@.map_values(|s: Names| s@),
            globals: self.globals@,
            next_var: self.next_var,
            spent: self.spent@,
            loops: self.loops@.map_values(|l: LoopCtx| l@),
            diagnostics: diagnostic_views(self.diagnostics@),
        }
    }
}

/// Whether every id is that of a node.
pub open spec fn in_range(w: Walk, ids: Seq<usize>) -> bool {
    forall|k: int| 0 <= k < ids.len() ==> #[trigger] ids[k] < w.nodes.len()
}

/// What every operation keeps: there is a scope, the number of nodes is a
/// node id, and every edge, loop head and break is that of a node.
pub open spec fn sound(w: Walk) -> bool {
    &&& w.scopes.len() > 0
    &&& w.nodes.len() <= usize::MAX
    &&& succs_in_range(w.nodes)
    &&& forall|k: int|
        0 <= k < w.loops.len() ==> (#[trigger] w.loops[k]).continue_target < w.nodes.len()
            && in_range(w, w.loops[k].breaks)
}

/// What holds between the states before and after a construct: nodes are only
/// added, and the scopes and loops that were open still are.
pub open spec fn grown(before: Walk, after: Walk) -> bool {
    &&& sound(after)
    &&& before.nodes.len() <= after.nodes.len()
    &&& before.scopes.len() == after.scopes.len()
    &&& before.loops.len() == after.loops.len()
}

/// Ids in range stay in range.
pub broadcast proof fn lemma_in_range_grows(before: Walk, after: Walk, ids: Seq<usize>)
    requires
        #[trigger] in_range(before, ids),
        #[trigger] grown(before, after),
    ensures
        in_range(after, ids),
{
}

pub broadcast proof fn lemma_grown_trans(a: Walk, b: Walk, c: Walk)
    requires
        #[trigger] grown(a, b),
        #[trigger] grown(b, c),
    ensures
        grown(a, c),
{
}

proof fn lemma_edge(w: Walk, from: usize, to: usize)
    requires
        sound(w),
        from < w.nodes.len(),
        to < w.nodes.len(),
    ensures
        grown(w, edge(w, from, to)),
        edge(w, from, to).nodes.len() == w.nodes.len(),
{
    let w1 = edge(w, from, to);
    let n = w.nodes[from as int];
    if !n.succs.contains(to) {
        assert forall|m: int, k: int|
            0 <= m < w1.nodes.len() && 0 <= k < w1.nodes[m].succs.len() implies
            #[trigger] w1.nodes[m].succs[k] < w1.nodes.len() by {
            if m == from as int {
                if k < n.succs.len() {
                    assert(w1.nodes[m].succs[k] == w.nodes[m].succs[k]);
                }
            } else {
                assert(w1.nodes[m] == w.nodes[m]);
            }
        }
        assert forall|k: int| 0 <= k < w1.loops.len() implies (
        #[trigger] w1.loops[k]).continue_target < w1.nodes.len() && in_range(
            w1,
            w1.loops[k].breaks,
        ) by {
            assert(w1.loops[k] == w.loops[k]);
            assert(in_range(w, w.loops[k].breaks));
        }
    }
}

/// Soundness does not rest on which variables there are.
proof fn lemma_sound_kept(w: Walk, w1: Walk)
    requires
        sound(w),
        w1.nodes == w.nodes,
        w1.loops == w.loops,
        w1.scopes.len() > 0,
    ensures
        sound(w1),
{
    assert forall|k: int| 0 <= k < w1.loops.len() implies (
    #[trigger] w1.loops[k]).continue_target < w1.nodes.len() && in_range(
        w1,
        w1.loops[k].breaks,
    ) by {
        assert(in_range(w, w.loops[k].breaks));
    }
}

proof fn lemma_pushed(w: Walk, n: NodeView)
    requires
        sound(w),
        n.succs.len() == 0,
        w.nodes.len() < usize::MAX,
    ensures
        grown(w, pushed(w, n)),
{
    let w1 = pushed(w, n);
    assert forall|m: int, k: int|
        0 <= m < w1.nodes.len() && 0 <= k < w1.nodes[m].succs.len() implies
        #[trigger] w1.nodes[m].succs[k] < w1.nodes.len() by {
        assert(m < w.nodes.len());
        assert(w1.nodes[m] == w.nodes[m]);
        assert(w.nodes[m].succs[k] < w.nodes.len());
    }
    assert forall|k: int| 0 <= k < w1.loops.len() implies (
    #[trigger] w1.loops[k]).continue_target < w1.nodes.len() && in_range(
        w1,
        w1.loops[k].breaks,
    ) by {
        assert(w1.loops[k] == w.loops[k]);
        assert(in_range(w, w.loops[k].breaks));
    }
}

pub(crate) fn has_var(list: &Vec<VarId>, v: VarId) -> (r: bool)
    ensures
        r == list@.contains(v),
{
    let mut k: usize = 0;
    while k < list.len()
        invariant
            k <= list.len(),
            forall|j: int| 0 <= j < k ==> list@[j] != v,
        decreases list.len() - k,
    {
        if list[k] == v {
            return true;
        }
        k += 1;
    }
    false
}

/// Adds a variable to the list unless it is there.
pub(crate) fn add_var(list: &mut Vec<VarId>, v: VarId)
    ensures
        final(list)@ == with_var(old(list)@, v),
{
    if !has_var(list, v) {
        list.push(v);
    }
}

impl FnState {
    pub(crate) fn new() -> (r: Self)
        ensures
            r@ == fresh(),
            sound(r@),
    {
        let mut scopes: Vec<Names> = Vec::new();
        scopes.push(Names::new());
        let r = FnState {
            nodes: Vec::new(),
            scopes,
            globals: Names::new(),
            next_var: 0,
            spent: Ghost(false),
            loops: Vec::new(),
            diagnostics: Vec::new(),
        };
        assert(r@ =~= fresh());
        r
    }

    pub(crate) fn push(&mut self, node: Node) -> (r: usize)
        requires
            sound(old(self)@),
            node@.succs.len() == 0,
        ensures
            final(self)@ == pushed(old(self)@, node@),
            r == next_node(old(self)@),
            r < final(self)@.nodes.len(),
            grown(old(self)@, final(self)@),
    {
        let ghost before = self.nodes@;
        let id: usize = self.nodes.len();
        self.nodes.push(node);
        let after: usize = self.nodes.len();
        proof {
            assert(node_views(self.nodes@) =~= node_views(before).push(node@));
            assert(after <= usize::MAX);
            lemma_pushed(old(self)@, node@);
        }
        id
    }

    /// Adds an edge unless it is there.
    pub(crate) fn edge(&mut self, from: usize, to: usize)
        requires
            sound(old(self)@),
            from < old(self)@.nodes.len(),
            to < old(self)@.nodes.len(),
        ensures
            final(self)@ == edge(old(self)@, from, to),
            final(self)@.nodes.len() == old(self)@.nodes.len(),
            grown(old(self)@, final(self)@),
    {
        proof {
            lemma_edge(self@, from, to);
        }
        let ghost before = self.nodes@;
        if !crate::ts::tree::has_index(self.nodes[from].succs.as_slice(), to) {
            self.nodes[from].succs.push(to);
            proof {
                assert(node_views(self.nodes@) =~= node_views(before).update(
                    from as int,
                    NodeView {
                        succs: before[from as int].succs@.push(to),
                        ..before[from as int]@
                    },
                ));
            }
        }
    }

    /// Adds edges from every node of `from` to `to`.
    pub(crate) fn link(&mut self, from: &[usize], to: usize)
        requires
            sound(old(self)@),
            in_range(old(self)@, from@),
            to < old(self)@.nodes.len(),
        ensures
            final(self)@ == link(old(self)@, from@, to),
            final(self)@.nodes.len() == old(self)@.nodes.len(),
            grown(old(self)@, final(self)@),
    {
        let ghost before = self@;
        let mut k: usize = 0;
        while k < from.len()
            invariant
                k <= from.len(),
                grown(before, self@),
                before.nodes.len() == self@.nodes.len(),
                in_range(before, from@),
                to < before.nodes.len(),
                link(before, from@, to) == link_from(self@, from@, k as int, to),
            decreases from.len() - k,
        {
            self.edge(from[k], to);
            k += 1;
        }
    }

    /// Adds an edge from each node to the next.
    pub(crate) fn chain(&mut self, ids: &Vec<usize>)
        requires
            sound(old(self)@),
            in_range(old(self)@, ids@),
        ensures
            final(self)@ == chain_from(old(self)@, ids@, 0),
            final(self)@.nodes.len() == old(self)@.nodes.len(),
            grown(old(self)@, final(self)@),
    {
        let ghost before = self@;
        let mut k: usize = 1;
        while k < ids.len()
            invariant
                1 <= k,
                grown(before, self@),
                before.nodes.len() == self@.nodes.len(),
                in_range(before, ids@),
                chain_from(before, ids@, 0) == chain_from(self@, ids@, k - 1),
            decreases ids.len() - k,
        {
            self.edge(ids[k - 1], ids[k]);
            k += 1;
        }
    }

    pub(crate) fn push_scope(&mut self)
        requires
            sound(old(self)@),
        ensures
            final(self)@ == scope_pushed(old(self)@),
            sound(final(self)@),
    {
        let ghost before = self.scopes@;
        self.scopes.push(Names::new());
        assert(self.scopes@.map_values(|s: Names| s@) =~= before.map_values(|s: Names| s@).push(
            Map::empty(),
        ));
    }

    pub(crate) fn pop_scope(&mut self)
        requires
            sound(old(self)@),
            old(self)@.scopes.len() > 1,
        ensures
            final(self)@ == scope_popped(old(self)@),
            sound(final(self)@),
    {
        let ghost before = self.scopes@;
        let _ = self.scopes.pop();
        assert(self.scopes@.map_values(|s: Names| s@) =~= before.map_values(
            |s: Names| s@,
        ).drop_last());
    }

    pub(crate) fn alloc_var(&mut self) -> (r: VarId)
        requires
            sound(old(self)@),
        ensures
            (final(self)@, r) == allocated(old(self)@),
            grown(old(self)@, final(self)@),
    {
        let id: VarId = self.next_var;
        let ghost spent = self.spent@ || id == u32::MAX;
        self.next_var = self.next_var.wrapping_add(1);
        proof {
            self.spent@ = spent;
        }
        proof {
            lemma_sound_kept(old(self)@, self@);
        }
        id
    }

    /// Binds `name` in the innermost scope.
    pub(crate) fn bind(&mut self, name: &str, v: VarId)
        requires
            sound(old(self)@),
        ensures
            final(self)@ == (Walk {
                scopes: old(self)@.scopes.update(
                    old(self)@.scopes.len() - 1,
                    old(self)@.scopes.last().insert(name@, v),
                ),
                ..old(self)@
            }),
            grown(old(self)@, final(self)@),
    {
        let ghost before = self.scopes@;
        let n: usize = self.scopes.len();
        self.scopes[n - 1].insert(name.to_owned(), v);
        assert(self.scopes@.map_values(|s: Names| s@) =~= before.map_values(|s: Names| s@).update(
            n - 1,
            before[n - 1]@.insert(name@, v),
        ));
    }

    /// The variable that the innermost scope gives `name`.
    pub(crate) fn innermost(&self, name: &str) -> (r: Option<VarId>)
        requires
            sound(self@),
        ensures
            match r {
                Some(v) => self@.scopes.last().contains_key(name@) && self@.scopes.last()[name@]
                    == v,
                None => !self@.scopes.last().contains_key(name@),
            },
    {
        let n: usize = self.scopes.len();
        assert(self@.scopes.last() == self.scopes@[n - 1]@);
        self.scopes[n - 1].get(name)
    }

    /// Resolves `name` against the scopes, innermost first, falling back to a
    /// function-wide ambient variable.
    pub(crate) fn resolve_or_global(&mut self, name: &str) -> (r: VarId)
        requires
            sound(old(self)@),
        ensures
            (final(self)@, r) == resolved(old(self)@, name@),
            grown(old(self)@, final(self)@),
    {
        let ghost w = self@;
        let mut k: usize = self.scopes.len();
        while k > 0
            invariant
                self@ == w,
                k <= self.scopes.len(),
                sound(w),
                in_scopes(w.scopes, w.scopes.len() as int, name@) == in_scopes(
                    w.scopes,
                    k as int,
                    name@,
                ),
            decreases k,
        {
            assert(w.scopes[k - 1] == self.scopes@[k - 1]@);
            if let Some(v) = self.scopes[k - 1].get(name) {
                return v;
            }
            k -= 1;
        }
        if let Some(v) = self.globals.get(name) {
            return v;
        }
        let v: VarId = self.alloc_var();
        self.globals.insert(name.to_owned(), v);
        v
    }

    pub(crate) fn open_loop(&mut self, target: usize)
        requires
            sound(old(self)@),
            target < old(self)@.nodes.len(),
        ensures
            final(self)@ == loop_opened(old(self)@, target),
            sound(final(self)@),
    {
        let ghost before = self.loops@;
        self.loops.push(LoopCtx { continue_target: target, breaks: Vec::new() });
        proof {
            assert(self.loops@.map_values(|l: LoopCtx| l@) =~= before.map_values(
                |l: LoopCtx| l@,
            ).push(LoopView { continue_target: target, breaks: Seq::empty() }));
            let w = old(self)@;
            assert forall|k: int| 0 <= k < self@.loops.len() implies (
            #[trigger] self@.loops[k]).continue_target < self@.nodes.len() && in_range(
                self@,
                self@.loops[k].breaks,
            ) by {
                if k < w.loops.len() {
                    assert(self@.loops[k] == w.loops[k]);
                    assert(in_range(w, w.loops[k].breaks));
                }
            }
        }
    }

    /// Closes the innermost loop; returns the nodes that control leaves from.
    pub(crate) fn close_loop(&mut self, body_exits: &Vec<usize>, head: usize) -> (r: Vec<usize>)
        requires
            sound(old(self)@),
            old(self)@.loops.len() > 0,
            in_range(old(self)@, body_exits@),
            head < old(self)@.nodes.len(),
        ensures
            (final(self)@, r@) == loop_closed(old(self)@, body_exits@, head),
            sound(final(self)@),
            in_range(final(self)@, r@),
            final(self)@.nodes.len() == old(self)@.nodes.len(),
            final(self)@.scopes.len() == old(self)@.scopes.len(),
            final(self)@.loops.len() == old(self)@.loops.len() - 1,
    {
        self.link(body_exits.as_slice(), head);
        let ghost w = self@;
        let ghost before = self.loops@;
        let mut exits: Vec<usize> = vec![head];
        let popped = self.loops.pop();
        proof {
            assert(self.loops@.map_values(|l: LoopCtx| l@) =~= before.map_values(
                |l: LoopCtx| l@,
            ).drop_last());
            assert(w.loops.last() == before.last()@);
            assert(in_range(w, w.loops[w.loops.len() - 1].breaks));
            assert forall|k: int| 0 <= k < self@.loops.len() implies (
            #[trigger] self@.loops[k]).continue_target < self@.nodes.len() && in_range(
                self@,
                self@.loops[k].breaks,
            ) by {
                assert(self@.loops[k] == w.loops[k]);
                assert(in_range(w, w.loops[k].breaks));
            }
        }
        if let Some(ctx) = popped {
            let mut breaks = ctx.breaks;
            exits.append(&mut breaks);
        }
        assert(exits@ =~= seq![head] + w.loops.last().breaks);
        exits
    }

    pub(crate) fn take_break(&mut self, node: usize)
        requires
            sound(old(self)@),
            node < old(self)@.nodes.len(),
        ensures
            final(self)@ == break_taken(old(self)@, node),
            grown(old(self)@, final(self)@),
    {
        let ghost w = self@;
        let ghost before = self.loops@;
        let n: usize = self.loops.len();
        if n > 0 {
            self.loops[n - 1].breaks.push(node);
            proof {
                assert(self.loops@.map_values(|l: LoopCtx| l@) =~= before.map_values(
                    |l: LoopCtx| l@,
                ).update(
                    n - 1,
                    LoopView {
                        breaks: before[n - 1].breaks@.push(node),
                        ..before[n - 1]@
                    },
                ));
                assert forall|k: int| 0 <= k < self@.loops.len() implies (
                #[trigger] self@.loops[k]).continue_target < self@.nodes.len() && in_range(
                    self@,
                    self@.loops[k].breaks,
                ) by {
                    assert(w.loops[k].continue_target < w.nodes.len());
                    assert(in_range(w, w.loops[k].breaks));
                    if k == n - 1 {
                        assert forall|j: int|
                            0 <= j < self@.loops[k].breaks.len() implies
                            #[trigger] self@.loops[k].breaks[j] < self@.nodes.len() by {
                            if j < w.loops[k].breaks.len() {
                                assert(self@.loops[k].breaks[j] == w.loops[k].breaks[j]);
                            }
                        }
                    } else {
                        assert(self@.loops[k] == w.loops[k]);
                    }
                }
            }
        }
    }

    pub(crate) fn take_continue(&mut self, node: usize)
        requires
            sound(old(self)@),
            node < old(self)@.nodes.len(),
        ensures
            final(self)@ == continue_taken(old(self)@, node),
            grown(old(self)@, final(self)@),
    {
        let n: usize = self.loops.len();
        if n > 0 {
            assert(self@.loops.last() == self.loops@[n - 1]@);
            assert(self@.loops[n - 1].continue_target < self@.nodes.len());
            let target: usize = self.loops[n - 1].continue_target;
            self.edge(node, target);
        }
    }

    /// The nodes and the reports of a finished lowering.
    pub(crate) fn finish(self) -> (r: (Vec<Node>, Vec<Diagnostic>))
        ensures
            node_views(r.0@) == self@.nodes,
            diagnostic_views(r.1@) == self@.diagnostics,
    {
        (self.nodes, self.diagnostics)
    }

    pub(crate) fn push_diagnostic(&mut self, function: &str, message: &str)
        requires
            sound(old(self)@),
        ensures
            final(self)@ == (Walk {
                diagnostics: old(self)@.diagnostics.push(
                    DiagnosticView { function: function@, message: message@ },
                ),
                ..old(self)@
            }),
            grown(old(self)@, final(self)@),
    {
        let ghost before = self.diagnostics@;
        self.diagnostics.push(
            Diagnostic { function: function.to_owned(), message: message.to_owned() },
        );
        assert(diagnostic_views(self.diagnostics@) =~= diagnostic_views(before).push(
            DiagnosticView { function: function@, message: message@ },
        ));
    }
}

} // verus!
