//! The commit graph: commits in the order in which they were added, each
//! after its parents, so that the graph has no cycle by construction. Holds
//! the search for ancestors, the merge base and the walk of a history.

use vstd::prelude::*;
use crate::error::JanusError;
use crate::history::{
    commit_to_info, spec_commit_info, CommitInfo, CommitInfoView, CommitRecord, CommitRecordView,
};

verus! {

/// A commit of the graph: the commit as it was read, and the places of its
/// parents in the graph.
#[derive(Debug, Clone, PartialEq, Eq)]
pub struct CommitNode {
    pub record: CommitRecord,
    pub parents: Vec<usize>,
}

/// A `CommitNode` as a mathematical value.
pub struct CommitNodeView {
    pub record: CommitRecordView,
    pub parents: Seq<usize>,
}

impl DeepView for CommitNode {
    type V = CommitNodeView;

    open spec fn deep_view(&self) -> CommitNodeView {
        CommitNodeView { record: self.record.deep_view(), parents: self.parents.deep_view() }
    }
}

/// A commit graph as a mathematical value: the commits in the order in
/// which they were added.
pub type GraphView = Seq<CommitNodeView>;

/// Whether every commit has as many places of parents as identifiers of
/// parents, each place before its own and holding the commit with that
/// identifier. A graph of this kind has no cycle.
pub open spec fn spec_parents_first(graph: GraphView) -> bool {
    forall|i: int|
        0 <= i < graph.len() ==> {
            &&& (#[trigger] graph[i]).parents.len() == graph[i].record.parent_ids.len()
            &&& forall|k: int|
                0 <= k < graph[i].parents.len() ==> {
                    &&& (#[trigger] graph[i].parents[k]) < i
                    &&& graph[graph[i].parents[k] as int].record.id
                        == graph[i].record.parent_ids[k]
                }
        }
}

/// Whether no two commits have the same identifier.
pub open spec fn spec_unique_ids(graph: GraphView) -> bool {
    forall|i: int, j: int|
        0 <= i < j < graph.len() ==> (#[trigger] graph[i]).record.id != (
        #[trigger] graph[j]).record.id
}

/// Whether `parent` is a parent of `child`.
pub open spec fn spec_is_parent(graph: GraphView, child: int, parent: int) -> bool {
    &&& 0 <= parent < child < graph.len()
    &&& exists|k: int|
        0 <= k < graph[child].parents.len() && (#[trigger] graph[child].parents[k]) == parent
}

/// Whether `to` can be reached from `from` by following parent edges: it is
/// `from` itself or an ancestor of it.
pub open spec fn spec_reaches(graph: GraphView, from: int, to: int) -> bool
    decreases from,
{
    if from < 0 || from >= graph.len() {
        false
    } else if from == to {
        true
    } else {
        exists|p: int| #[trigger]
            spec_is_parent(graph, from, p) && spec_reaches(graph, p, to)
    }
}

/// A commit reaches itself and what its parents reach, and nothing at a
/// later place than its own.
pub proof fn lemma_reaches_step(graph: GraphView, from: int, parent: int, to: int)
    requires
        spec_is_parent(graph, from, parent),
        spec_reaches(graph, parent, to),
    ensures
        spec_reaches(graph, from, to),
        to <= parent < from,
    decreases parent,
{
    lemma_reaches_bounds(graph, parent, to);
}

/// A commit reaches only commits at its own place or before.
pub proof fn lemma_reaches_bounds(graph: GraphView, from: int, to: int)
    requires
        spec_reaches(graph, from, to),
    ensures
        0 <= to <= from < graph.len(),
    decreases from,
{
    if from != to {
        let p = choose|p: int| #[trigger]
            spec_is_parent(graph, from, p) && spec_reaches(graph, p, to);
        lemma_reaches_bounds(graph, p, to);
    }
}

/// What a commit reaches, the parents of that are reached too.
pub proof fn lemma_reaches_parent(graph: GraphView, from: int, mid: int, to: int)
    requires
        spec_reaches(graph, from, mid),
        spec_is_parent(graph, mid, to),
    ensures
        spec_reaches(graph, from, to),
    decreases from,
{
    if from == mid {
        assert(spec_reaches(graph, to, to));
    } else {
        let p = choose|p: int| #[trigger]
            spec_is_parent(graph, from, p) && spec_reaches(graph, p, mid);
        lemma_reaches_parent(graph, p, mid, to);
    }
}

/// Reaching is transitive.
pub proof fn lemma_reaches_transitive(graph: GraphView, a: int, b: int, c: int)
    requires
        spec_reaches(graph, a, b),
        spec_reaches(graph, b, c),
    ensures
        spec_reaches(graph, a, c),
    decreases a,
{
    if a != b {
        let p = choose|p: int| #[trigger]
            spec_is_parent(graph, a, p) && spec_reaches(graph, p, b);
        lemma_reaches_transitive(graph, p, b, c);
    }
}

/// What is reached, other than the start itself, is a parent of something
/// that is reached.
pub proof fn lemma_reached_through(graph: GraphView, from: int, to: int) -> (child: int)
    requires
        spec_reaches(graph, from, to),
        from != to,
    ensures
        spec_reaches(graph, from, child),
        spec_is_parent(graph, child, to),
    decreases from,
{
    let p = choose|p: int| #[trigger]
        spec_is_parent(graph, from, p) && spec_reaches(graph, p, to);
    if p == to {
        from
    } else {
        let child = lemma_reached_through(graph, p, to);
        lemma_reaches_step(graph, from, p, child);
        child
    }
}

/// The commit graph of a repository.
#[derive(Debug)]
pub struct History {
    nodes: Vec<CommitNode>,
}

impl View for History {
    type V = GraphView;

    closed spec fn view(&self) -> GraphView {
        self.nodes.deep_view()
    }
}

impl History {
    /// Whether every commit stands after its parents and no identifier
    /// occurs twice. Every graph that this module hands out is well formed.
    pub closed spec fn wf(&self) -> bool {
        spec_parents_first(self@) && spec_unique_ids(self@)
    }

    /// A well-formed graph holds its commits after their parents, each
    /// identifier once.
    pub proof fn lemma_wf(&self)
        requires
            self.wf(),
        ensures
            spec_parents_first(self@),
            spec_unique_ids(self@),
    {
    }

    /// A graph without commits.
    pub fn new() -> (history: History)
        ensures
            history.wf(),
            history@ == Seq::<CommitNodeView>::empty(),
    {
        let history = History { nodes: Vec::new() };
        assert(history.nodes.deep_view() =~= Seq::<CommitNodeView>::empty());
        history
    }

    /// How many commits the graph holds.
    pub fn len(&self) -> (count: usize)
        ensures
            count == self@.len(),
    {
        self.nodes.len()
    }

    /// The commit at the place `at`.
    pub fn node(&self, at: usize) -> (node: &CommitNode)
        requires
            at < self@.len(),
        ensures
            node.deep_view() == self@[at as int],
    {
        &self.nodes[at]
    }

    /// The place of the commit with the identifier `id`, if the graph holds
    /// it.
    pub fn index_of(&self, id: &String) -> (at: Option<usize>)
        ensures
            match at {
                Some(i) => i < self@.len() && self@[i as int].record.id == id@,
                None => forall|i: int|
                    0 <= i < self@.len() ==> (#[trigger] self@[i]).record.id != id@,
            },
    {
        let mut i: usize = 0;
        while i < self.nodes.len()
            invariant
                i <= self.nodes.len(),
                forall|k: int| 0 <= k < i ==> (#[trigger] self@[k]).record.id != id@,
            decreases self.nodes.len() - i,
        {
            if self.nodes[i].record.id == *id {
                return Some(i);
            }
            i += 1;
        }
        None
    }

    /// Adds a commit to the graph and returns its place. A commit whose
    /// identifier the graph holds already is not added again: its place is
    /// returned.
    ///
    /// Fails with `ObjectNotFound`, and changes nothing, where the graph
    /// does not hold one of the parents and the commit is new; the failure
    /// carries the identifier of the first such parent.
    pub fn add_commit(&mut self, record: CommitRecord) -> (res: Result<usize, JanusError>)
        requires
            old(self).wf(),
        ensures
            final(self).wf(),
            match res {
                Ok(at) => {
                    &&& at < final(self)@.len()
                    &&& final(self)@[at as int].record.id == record.id@
                    &&& if exists|i: int|
                        0 <= i < old(self)@.len() && (#[trigger] old(self)@[i]).record.id
                            == record.id@ {
                        final(self)@ == old(self)@
                    } else {
                        &&& at == old(self)@.len()
                        &&& final(self)@.len() == old(self)@.len() + 1
                        &&& final(self)@.drop_last() == old(self)@
                        &&& final(self)@[at as int].record == record.deep_view()
                    }
                },
                Err(e) => {
                    &&& final(self)@ == old(self)@
                    &&& e matches JanusError::ObjectNotFound(what) && exists|k: int|
                        {
                            &&& 0 <= k < record.parent_ids.len()
                            &&& what@ == (#[trigger] record.parent_ids[k])@
                            &&& forall|i: int|
                                0 <= i < old(self)@.len() ==> (#[trigger] old(self)@[i]).record.id
                                    != what@
                        }
                },
            },
    {
        if let Some(at) = self.index_of(&record.id) {
            return Ok(at);
        }
        let mut parents: Vec<usize> = Vec::new();
        let mut k: usize = 0;
        while k < record.parent_ids.len()
            invariant
                k <= record.parent_ids.len(),
                parents.len() == k,
                self.wf(),
                self@ == old(self)@,
                forall|j: int|
                    0 <= j < k ==> (#[trigger] parents[j]) < self@.len() && self@[parents[j] as int].record.id
                        == record.parent_ids[j]@,
            decreases record.parent_ids.len() - k,
        {
            match self.index_of(&record.parent_ids[k]) {
                Some(at) => {
                    parents.push(at);
                },
                None => {
                    return Err(JanusError::ObjectNotFound(record.parent_ids[k].clone()));
                },
            }
            k += 1;
        }
        let ghost before = self@;
        let ghost added = CommitNodeView {
            record: record.deep_view(),
            parents: parents.deep_view(),
        };
        let at = self.nodes.len();
        self.nodes.push(CommitNode { record, parents });
        proof {
            assert(self@ =~= before.push(added));
            assert(self@.drop_last() =~= before);
            assert forall|i: int| 0 <= i < self@.len() implies {
                &&& (#[trigger] self@[i]).parents.len() == self@[i].record.parent_ids.len()
                &&& forall|k: int|
                    0 <= k < self@[i].parents.len() ==> {
                        &&& (#[trigger] self@[i].parents[k]) < i
                        &&& self@[self@[i].parents[k] as int].record.id
                            == self@[i].record.parent_ids[k]
                    }
            } by {
                if i < before.len() {
                    assert(self@[i] == before[i]);
                    assert forall|k: int| 0 <= k < before[i].parents.len() implies {
                        &&& (#[trigger] self@[i].parents[k]) < i
                        &&& self@[self@[i].parents[k] as int].record.id
                            == self@[i].record.parent_ids[k]
                    } by {
                        assert(before[i].parents[k] < i);
                        assert(self@[before[i].parents[k] as int] == before[before[i].parents[k] as int]);
                    }
                } else {
                    assert forall|k: int| 0 <= k < added.parents.len() implies {
                        &&& (#[trigger] self@[i].parents[k]) < i
                        &&& self@[self@[i].parents[k] as int].record.id
                            == self@[i].record.parent_ids[k]
                    } by {
                        assert(parents[k] < before.len());
                        assert(self@[parents[k] as int] == before[parents[k] as int]);
                    }
                }
            }
            assert forall|i: int, j: int| 0 <= i < j < self@.len() implies (
            #[trigger] self@[i]).record.id != (#[trigger] self@[j]).record.id by {
                assert(self@[i] == before[i]);
                if j < before.len() {
                    assert(self@[j] == before[j]);
                }
            }
        }
        Ok(at)
    }
}

/// Whether `to` is the start of a search at `start`, or a parent of a
/// commit at the place `bound` or later that the start reaches.
pub open spec fn spec_seen(graph: GraphView, start: int, bound: int, to: int) -> bool {
    to == start || exists|child: int|
        bound <= child && spec_reaches(graph, start, child) && #[trigger] spec_is_parent(
            graph,
            child,
            to,
        )
}

/// Whether `to` is among the first `count` of `parents`.
pub open spec fn spec_among(parents: Seq<usize>, count: int, to: int) -> bool {
    exists|i: int| 0 <= i < count && (#[trigger] parents[i]) == to
}

/// What was seen from the commits after a place is what the start reaches.
proof fn lemma_seen_is_reached(graph: GraphView, start: int, at: int)
    requires
        0 <= at <= start < graph.len(),
    ensures
        spec_seen(graph, start, at + 1, at) == spec_reaches(graph, start, at),
{
    if spec_reaches(graph, start, at) && at != start {
        let child = lemma_reached_through(graph, start, at);
        assert(spec_is_parent(graph, child, at));
    }
    if spec_seen(graph, start, at + 1, at) && at != start {
        let child = choose|child: int|
            at + 1 <= child && spec_reaches(graph, start, child) && #[trigger] spec_is_parent(
                graph,
                child,
                at,
            );
        lemma_reaches_parent(graph, start, child, at);
    }
    if at == start {
        assert(spec_reaches(graph, start, start));
    }
}

/// Whether `base` is the merge base of `a` and `b`: the common ancestor at
/// the latest place, or none where they have no common ancestor.
pub open spec fn spec_is_merge_base(graph: GraphView, a: int, b: int, base: Option<int>) -> bool {
    match base {
        Some(m) => {
            &&& spec_reaches(graph, a, m)
            &&& spec_reaches(graph, b, m)
            &&& forall|c: int|
                spec_reaches(graph, a, c) && #[trigger] spec_reaches(graph, b, c) ==> c <= m
        },
        None => forall|c: int|
            !(spec_reaches(graph, a, c) && #[trigger] spec_reaches(graph, b, c)),
    }
}

/// The merge base is a nearest common ancestor: no other common ancestor
/// descends from it.
pub proof fn lemma_merge_base_is_nearest(graph: GraphView, a: int, b: int, base: int, other: int)
    requires
        spec_is_merge_base(graph, a, b, Some(base)),
        spec_reaches(graph, a, other),
        spec_reaches(graph, b, other),
        spec_reaches(graph, other, base),
    ensures
        other == base,
{
    lemma_reaches_bounds(graph, other, base);
}

/// The merge base of `a` and `b` is `b` exactly when `b` is `a` or one of
/// its ancestors.
pub proof fn lemma_merge_base_of_ancestor(graph: GraphView, a: int, b: int, base: Option<int>)
    requires
        spec_is_merge_base(graph, a, b, base),
        0 <= b < graph.len(),
    ensures
        base == Some(b) <==> spec_reaches(graph, a, b),
{
    assert(spec_reaches(graph, b, b));
    if spec_reaches(graph, a, b) {
        match base {
            Some(m) => {
                lemma_reaches_bounds(graph, b, m);
            },
            None => {},
        }
    }
}

impl History {
    /// For every place of the graph, whether `start` reaches the commit
    /// there: whether it is `start` or one of its ancestors.
    pub fn ancestors(&self, start: usize) -> (marks: Vec<bool>)
        requires
            self.wf(),
            start < self@.len(),
        ensures
            marks.len() == self@.len(),
            forall|i: int|
                0 <= i < marks.len() ==> marks[i] == spec_reaches(self@, start as int, i),
    {
        let ghost graph = self@;
        let mut marks: Vec<bool> = Vec::new();
        let mut n: usize = 0;
        while n < self.nodes.len()
            invariant
                n <= self.nodes.len(),
                marks.len() == n,
                forall|j: int| 0 <= j < n ==> marks[j] == (j == start),
            decreases self.nodes.len() - n,
        {
            marks.push(n == start);
            n += 1;
        }
        let mut at: usize = start + 1;
        proof {
            assert forall|j: int| start < j < graph.len() implies !spec_reaches(
                graph,
                start as int,
                j,
            ) by {
                if spec_reaches(graph, start as int, j) {
                    lemma_reaches_bounds(graph, start as int, j);
                }
            }
            assert forall|j: int| 0 <= j <= start implies marks[j] == spec_seen(
                graph,
                start as int,
                start + 1,
                j,
            ) by {
                if spec_seen(graph, start as int, start + 1, j) && j != start {
                    let child = choose|child: int|
                        start + 1 <= child && spec_reaches(graph, start as int, child)
                            && #[trigger] spec_is_parent(graph, child, j);
                    lemma_reaches_bounds(graph, start as int, child);
                }
            }
        }
        while at > 0
            invariant
                at <= start + 1,
                start < self.nodes.len(),
                self.wf(),
                graph == self@,
                marks.len() == graph.len(),
                forall|j: int|
                    at <= j < graph.len() ==> marks[j] == spec_reaches(graph, start as int, j),
                forall|j: int|
                    0 <= j < at ==> marks[j] == spec_seen(graph, start as int, at as int, j),
            decreases at,
        {
            at -= 1;
            proof {
                lemma_seen_is_reached(graph, start as int, at as int);
            }
            let ghost before = marks@;
            if marks[at] {
                let node = &self.nodes[at];
                let mut k: usize = 0;
                proof {
                    assert forall|i: int| 0 <= i < node.parents.len() implies (
                    #[trigger] node.parents[i]) < at by {
                        assert(graph[at as int].parents[i] == node.parents[i]);
                    }
                }
                while k < node.parents.len()
                    invariant
                        k <= node.parents.len(),
                        at < graph.len(),
                        self.wf(),
                        graph == self@,
                        node.deep_view() == graph[at as int],
                        marks.len() == graph.len(),
                        before.len() == graph.len(),
                        forall|i: int|
                            0 <= i < node.parents.len() ==> (#[trigger] node.parents[i]) < at,
                        forall|j: int| at <= j < graph.len() ==> marks[j] == before[j],
                        forall|j: int|
                            0 <= j < at ==> #[trigger] marks@[j] == (before[j] || spec_among(
                                node.parents@,
                                k as int,
                                j,
                            )),
                    decreases node.parents.len() - k,
                {
                    let parent = node.parents[k];
                    proof {
                        assert(graph[at as int].parents[k as int] == parent);
                        assert(parent < at);
                    }
                    let ghost during = marks@;
                    marks.set(parent, true);
                    proof {
                        assert forall|j: int| 0 <= j < at implies #[trigger] marks@[j] == (
                        before[j] || spec_among(node.parents@, k + 1, j)) by {
                            if j == parent {
                                assert(node.parents@[k as int] == j);
                            } else {
                                assert(marks@[j] == during[j]);
                                if spec_among(node.parents@, k + 1, j) {
                                    let i = choose|i: int|
                                        0 <= i < k + 1 && (#[trigger] node.parents@[i]) == j;
                                    assert(i < k);
                                }
                                if spec_among(node.parents@, k as int, j) {
                                    let i = choose|i: int|
                                        0 <= i < k && (#[trigger] node.parents@[i]) == j;
                                    assert(0 <= i < k + 1 && node.parents@[i] == j);
                                }
                            }
                        }
                    }
                    k += 1;
                }
            }
            proof {
                assert forall|j: int| 0 <= j < at implies marks[j] == spec_seen(
                    graph,
                    start as int,
                    at as int,
                    j,
                ) by {
                    let direct = spec_is_parent(graph, at as int, j);
                    if before[at as int] {
                        let parents = graph[at as int].parents;
                        assert(parents == self.nodes[at as int].parents@);
                        assert(marks@[j] == (before[j] || spec_among(
                            parents,
                            parents.len() as int,
                            j,
                        )));
                        if spec_among(parents, parents.len() as int, j) {
                            let i = choose|i: int|
                                0 <= i < parents.len() && (#[trigger] parents[i]) == j;
                            assert(graph[at as int].parents[i] == j);
                            assert(spec_is_parent(graph, at as int, j));
                        }
                        if direct {
                            let i = choose|i: int|
                                0 <= i < graph[at as int].parents.len() && (
                                #[trigger] graph[at as int].parents[i]) == j;
                            assert(parents[i] == j);
                        }
                    }
                    if spec_seen(graph, start as int, at as int, j) && j != start {
                        let child = choose|child: int|
                            at <= child && spec_reaches(graph, start as int, child)
                                && #[trigger] spec_is_parent(graph, child, j);
                        if child > at {
                            assert(spec_seen(graph, start as int, at + 1, j));
                        }
                    }
                    if before[j] && j != start {
                        let child = choose|child: int|
                            at + 1 <= child && spec_reaches(graph, start as int, child)
                                && #[trigger] spec_is_parent(graph, child, j);
                        assert(spec_seen(graph, start as int, at as int, j));
                    }
                }
            }
        }
        marks
    }

    /// Whether the commit at `ancestor` is the commit at `of` or one of its
    /// ancestors.
    pub fn is_ancestor(&self, ancestor: usize, of: usize) -> (reached: bool)
        requires
            self.wf(),
            of < self@.len(),
        ensures
            reached == spec_reaches(self@, of as int, ancestor as int),
    {
        if ancestor >= self.nodes.len() {
            proof {
                if spec_reaches(self@, of as int, ancestor as int) {
                    lemma_reaches_bounds(self@, of as int, ancestor as int);
                }
            }
            return false;
        }
        let marks = self.ancestors(of);
        marks[ancestor]
    }

    /// The merge base of the commits at `a` and `b`: their common ancestor
    /// at the latest place, which is a nearest one.
    pub fn merge_base(&self, a: usize, b: usize) -> (base: Option<usize>)
        requires
            self.wf(),
            a < self@.len(),
            b < self@.len(),
        ensures
            spec_is_merge_base(
                self@,
                a as int,
                b as int,
                match base {
                    Some(m) => Some(m as int),
                    None => None,
                },
            ),
    {
        let ghost graph = self@;
        let of_a = self.ancestors(a);
        let of_b = self.ancestors(b);
        let mut at: usize = self.nodes.len();
        while at > 0
            invariant
                at <= graph.len(),
                graph == self@,
                of_a.len() == graph.len(),
                of_b.len() == graph.len(),
                forall|i: int| 0 <= i < graph.len() ==> of_a[i] == spec_reaches(graph, a as int, i),
                forall|i: int| 0 <= i < graph.len() ==> of_b[i] == spec_reaches(graph, b as int, i),
                forall|c: int|
                    at <= c < graph.len() ==> !(spec_reaches(graph, a as int, c)
                        && spec_reaches(graph, b as int, c)),
            decreases at,
        {
            at -= 1;
            if of_a[at] && of_b[at] {
                proof {
                    assert forall|c: int|
                        spec_reaches(graph, a as int, c) && #[trigger] spec_reaches(
                            graph,
                            b as int,
                            c,
                        ) implies c <= at by {
                        lemma_reaches_bounds(graph, a as int, c);
                    }
                }
                return Some(at);
            }
        }
        proof {
            assert forall|c: int|
                !(spec_reaches(graph, a as int, c) && #[trigger] spec_reaches(graph, b as int, c)) by {
                if spec_reaches(graph, a as int, c) {
                    lemma_reaches_bounds(graph, a as int, c);
                }
            }
        }
        None
    }
}

/// Whether the commit at `a` is newer than the one at `b`: it was made
/// later, or at the same time and added later.
pub open spec fn spec_newer(graph: GraphView, a: int, b: int) -> bool {
    graph[a].record.time > graph[b].record.time || (graph[a].record.time == graph[b].record.time
        && a > b)
}

/// Whether the commit at `at` may be visited next in a walk from `start`
/// that has visited `shown`: every child of it that the walk is to visit
/// has been visited.
pub open spec fn spec_ready(graph: GraphView, start: int, shown: Seq<usize>, at: int) -> bool {
    forall|child: int|
        spec_reaches(graph, start, child) && #[trigger] spec_is_parent(graph, child, at)
            ==> shown.contains(child as usize)
}

/// Whether the commit at `at` is still to be visited in a walk from `start`
/// that has visited `shown`.
pub open spec fn spec_waits(graph: GraphView, start: int, shown: Seq<usize>, at: int) -> bool {
    spec_reaches(graph, start, at) && !shown.contains(at as usize)
}

/// Whether the visit at the position `n` of a walk is in order: the commit
/// was still to be visited and ready, and it is the newest of the commits
/// that were.
pub open spec fn spec_visit_in_order(graph: GraphView, start: int, walk: Seq<usize>, n: int)
    -> bool {
    &&& spec_waits(graph, start, walk.take(n), walk[n] as int)
    &&& spec_ready(graph, start, walk.take(n), walk[n] as int)
    &&& forall|other: int|
        other != walk[n] && #[trigger] spec_waits(graph, start, walk.take(n), other)
            && spec_ready(graph, start, walk.take(n), other) ==> spec_newer(
            graph,
            walk[n] as int,
            other,
        )
}

/// Whether `walk` is the walk of the history of `start` with the limit
/// `limit`. The walk visits `start` and its ancestors, each once and no
/// commit before all of its children that it visits; among the commits
/// that may be visited next it takes the newest. Without a limit it visits
/// all of them, with a limit it stops after that many.
pub open spec fn spec_is_walk(graph: GraphView, start: int, limit: Option<u32>, walk: Seq<usize>)
    -> bool {
    &&& forall|n: int| 0 <= n < walk.len() ==> #[trigger] spec_visit_in_order(graph, start, walk, n)
    &&& match limit {
        Some(k) => walk.len() <= k,
        None => true,
    }
    &&& (limit == Some(walk.len() as u32) || forall|c: int|
        spec_reaches(graph, start, c) ==> #[trigger] walk.contains(c as usize))
}

/// In a walk, a commit comes before each of its parents.
pub proof fn lemma_walk_children_first(
    graph: GraphView,
    start: int,
    limit: Option<u32>,
    walk: Seq<usize>,
    child: int,
    parent: int,
)
    requires
        spec_is_walk(graph, start, limit, walk),
        0 <= child < walk.len(),
        0 <= parent < walk.len(),
        spec_is_parent(graph, walk[child] as int, walk[parent] as int),
    ensures
        child < parent,
{
    assert(spec_visit_in_order(graph, start, walk, parent));
    assert(spec_visit_in_order(graph, start, walk, child));
    let earlier = walk.take(parent);
    assert(earlier.contains(walk[child]));
    let i = choose|i: int| 0 <= i < earlier.len() && earlier[i] == walk[child];
    if i != child {
        // the same commit at two positions: the later visit found it visited
        let (a, b) = if i < child {
            (i, child)
        } else {
            (child, i)
        };
        assert(spec_visit_in_order(graph, start, walk, b));
        assert(walk.take(b)[a] == walk[b]);
        assert(walk.take(b).contains(walk[b]));
    }
}

/// A walk visits no commit twice.
pub proof fn lemma_walk_visits_once(
    graph: GraphView,
    start: int,
    limit: Option<u32>,
    walk: Seq<usize>,
)
    requires
        spec_is_walk(graph, start, limit, walk),
    ensures
        walk.no_duplicates(),
{
    assert forall|a: int, b: int| 0 <= a < walk.len() && 0 <= b < walk.len() && a != b implies walk[a]
        != walk[b] by {
        let (lo, hi) = if a < b {
            (a, b)
        } else {
            (b, a)
        };
        assert(spec_visit_in_order(graph, start, walk, hi));
        if walk[a] == walk[b] {
            assert(walk.take(hi)[lo] == walk[hi]);
            assert(walk.take(hi).contains(walk[hi]));
        }
    }
}

/// Where a commit waits to be visited, the latest commit that waits is
/// ready.
proof fn lemma_latest_waiting_is_ready(graph: GraphView, start: int, shown: Seq<usize>, at: int)
    -> (latest: int)
    requires
        exists|c: int| 0 <= c <= at && spec_waits(graph, start, shown, c),
    ensures
        spec_waits(graph, start, shown, latest),
        0 <= latest <= at,
        forall|c: int| latest < c <= at ==> !spec_waits(graph, start, shown, c),
    decreases at,
{
    if spec_waits(graph, start, shown, at) {
        at
    } else {
        let c = choose|c: int| 0 <= c <= at && spec_waits(graph, start, shown, c);
        assert(c <= at - 1);
        lemma_latest_waiting_is_ready(graph, start, shown, at - 1)
    }
}

impl History {
    /// For every place, whether the commit there has a child that waits to
    /// be visited.
    fn blocked(&self, reached: &Vec<bool>, shown: &Vec<bool>, Ghost(start): Ghost<int>, Ghost(walk): Ghost<Seq<usize>>) -> (blocked: Vec<bool>)
        requires
            self.wf(),
            reached.len() == self@.len(),
            shown.len() == self@.len(),
            forall|i: int| 0 <= i < self@.len() ==> reached[i] == spec_reaches(self@, start, i),
            forall|i: int| 0 <= i < self@.len() ==> shown[i] == walk.contains(i as usize),
        ensures
            blocked.len() == self@.len(),
            forall|i: int|
                0 <= i < self@.len() ==> blocked[i] == !spec_ready(self@, start, walk, i),
    {
        let ghost graph = self@;
        let mut blocked: Vec<bool> = Vec::new();
        let mut n: usize = 0;
        while n < self.nodes.len()
            invariant
                n <= self.nodes.len(),
                blocked.len() == n,
                forall|j: int| 0 <= j < n ==> !blocked[j],
            decreases self.nodes.len() - n,
        {
            blocked.push(false);
            n += 1;
        }
        let mut at: usize = 0;
        while at < self.nodes.len()
            invariant
                at <= self.nodes.len(),
                self.wf(),
                graph == self@,
                blocked.len() == graph.len(),
                reached.len() == graph.len(),
                shown.len() == graph.len(),
                forall|i: int| 0 <= i < graph.len() ==> reached[i] == spec_reaches(graph, start, i),
                forall|i: int| 0 <= i < graph.len() ==> shown[i] == walk.contains(i as usize),
                forall|j: int|
                    0 <= j < graph.len() ==> #[trigger] blocked@[j] == spec_blocked_by(
                        graph,
                        start,
                        walk,
                        at as int,
                        j,
                    ),
            decreases self.nodes.len() - at,
        {
            let ghost before = blocked@;
            if reached[at] && !shown[at] {
                let node = &self.nodes[at];
                let mut k: usize = 0;
                proof {
                    assert forall|i: int| 0 <= i < node.parents.len() implies (
                    #[trigger] node.parents[i]) < at by {
                        assert(graph[at as int].parents[i] == node.parents[i]);
                    }
                }
                while k < node.parents.len()
                    invariant
                        k <= node.parents.len(),
                        at < graph.len(),
                        blocked.len() == graph.len(),
                        before.len() == graph.len(),
                        forall|i: int|
                            0 <= i < node.parents.len() ==> (#[trigger] node.parents[i]) < at,
                        forall|j: int|
                            0 <= j < graph.len() ==> #[trigger] blocked@[j] == (before[j]
                                || spec_among(node.parents@, k as int, j)),
                    decreases node.parents.len() - k,
                {
                    let parent = node.parents[k];
                    let ghost during = blocked@;
                    blocked.set(parent, true);
                    proof {
                        assert forall|j: int| 0 <= j < graph.len() implies #[trigger] blocked@[j]
                            == (before[j] || spec_among(node.parents@, k + 1, j)) by {
                            if j == parent {
                                assert(node.parents@[k as int] == j);
                            } else {
                                assert(blocked@[j] == during[j]);
                                if spec_among(node.parents@, k + 1, j) {
                                    let i = choose|i: int|
                                        0 <= i < k + 1 && (#[trigger] node.parents@[i]) == j;
                                    assert(i < k);
                                }
                                if spec_among(node.parents@, k as int, j) {
                                    let i = choose|i: int|
                                        0 <= i < k && (#[trigger] node.parents@[i]) == j;
                                    assert(0 <= i < k + 1 && node.parents@[i] == j);
                                }
                            }
                        }
                    }
                    k += 1;
                }
            }
            proof {
                let parents = graph[at as int].parents;
                assert(parents == self.nodes[at as int].parents@);
                assert forall|j: int| 0 <= j < graph.len() implies #[trigger] blocked@[j]
                    == spec_blocked_by(graph, start, walk, at + 1, j) by {
                    let waits = spec_waits(graph, start, walk, at as int);
                    assert(waits == (reached[at as int] && !shown[at as int]));
                    if waits {
                        assert(blocked@[j] == (before[j] || spec_among(
                            parents,
                            parents.len() as int,
                            j,
                        )));
                        if spec_among(parents, parents.len() as int, j) {
                            let i = choose|i: int|
                                0 <= i < parents.len() && (#[trigger] parents[i]) == j;
                            assert(graph[at as int].parents[i] == j);
                            assert(spec_is_parent(graph, at as int, j));
                        }
                        if spec_is_parent(graph, at as int, j) {
                            let i = choose|i: int|
                                0 <= i < graph[at as int].parents.len() && (
                                #[trigger] graph[at as int].parents[i]) == j;
                            assert(parents[i] == j);
                        }
                    }
                    if spec_blocked_by(graph, start, walk, at + 1, j) {
                        let child = choose|child: int|
                            0 <= child < at + 1 && spec_waits(graph, start, walk, child)
                                && #[trigger] spec_is_parent(graph, child, j);
                        if child < at {
                            assert(spec_blocked_by(graph, start, walk, at as int, j));
                        }
                    }
                    if before[j] {
                        let child = choose|child: int|
                            0 <= child < at && spec_waits(graph, start, walk, child)
                                && #[trigger] spec_is_parent(graph, child, j);
                        assert(spec_blocked_by(graph, start, walk, at + 1, j));
                    }
                }
            }
            at += 1;
        }
        proof {
            assert forall|i: int| 0 <= i < graph.len() implies blocked[i] == !spec_ready(
                graph,
                start,
                walk,
                i,
            ) by {
                if spec_blocked_by(graph, start, walk, graph.len() as int, i) {
                    let child = choose|child: int|
                        0 <= child < graph.len() && spec_waits(graph, start, walk, child)
                            && #[trigger] spec_is_parent(graph, child, i);
                    assert(!walk.contains(child as usize));
                }
                if !spec_ready(graph, start, walk, i) {
                    let child = choose|child: int|
                        spec_reaches(graph, start, child) && #[trigger] spec_is_parent(
                            graph,
                            child,
                            i,
                        ) && !walk.contains(child as usize);
                    assert(spec_waits(graph, start, walk, child));
                }
            }
        }
        blocked
    }

    /// The walk of the history of the commit at `start`: the commit and
    /// its ancestors, newest first, no commit before all of its children,
    /// and no more than `limit` of them where a limit is given.
    pub fn walk(&self, start: usize, limit: Option<u32>) -> (walk: Vec<usize>)
        requires
            self.wf(),
            start < self@.len(),
        ensures
            spec_is_walk(self@, start as int, limit, walk@),
    {
        let ghost graph = self@;
        let reached = self.ancestors(start);
        let total = self.nodes.len();
        let mut shown: Vec<bool> = Vec::new();
        let mut n: usize = 0;
        while n < total
            invariant
                n <= total,
                shown.len() == n,
                forall|j: int| 0 <= j < n ==> !shown[j],
            decreases total - n,
        {
            shown.push(false);
            n += 1;
        }
        let mut walk: Vec<usize> = Vec::new();
        let mut done = false;
        while !done
            invariant
                self.wf(),
                graph == self@,
                total == graph.len(),
                start < total,
                reached.len() == total,
                shown.len() == total,
                walk.len() <= total,
                forall|i: int| 0 <= i < total ==> reached[i] == spec_reaches(graph, start as int, i),
                forall|i: int| 0 <= i < total ==> shown[i] == walk@.contains(i as usize),
                forall|n: int| 0 <= n < walk.len() ==> walk@[n] < total,
                walk@.no_duplicates(),
                forall|n: int|
                    0 <= n < walk.len() ==> #[trigger] spec_visit_in_order(
                        graph,
                        start as int,
                        walk@,
                        n,
                    ),
                match limit {
                    Some(k) => walk.len() <= k,
                    None => true,
                },
                done ==> (limit == Some(walk.len() as u32) || forall|c: int|
                    spec_reaches(graph, start as int, c) ==> #[trigger] walk@.contains(c as usize)),
            decreases (if done { 0int } else { 1int }), total - walk.len(),
        {
            let full = match limit {
                Some(k) => walk.len() >= k as usize,
                None => false,
            };
            if full {
                done = true;
            } else {
                let blocked = self.blocked(&reached, &shown, Ghost(start as int), Ghost(walk@));
                let mut best: Option<usize> = None;
                let mut c: usize = 0;
                while c < total
                    invariant
                        c <= total,
                        graph == self@,
                        total == graph.len(),
                        reached.len() == total,
                        shown.len() == total,
                        blocked.len() == total,
                        forall|i: int|
                            0 <= i < total ==> reached[i] == spec_reaches(graph, start as int, i),
                        forall|i: int| 0 <= i < total ==> shown[i] == walk@.contains(i as usize),
                        forall|i: int|
                            0 <= i < total ==> blocked[i] == !spec_ready(
                                graph,
                                start as int,
                                walk@,
                                i,
                            ),
                        match best {
                            Some(b) => b < c && reached[b as int] && !shown[b as int]
                                && !blocked[b as int],
                            None => true,
                        },
                        forall|i: int|
                            0 <= i < c && reached[i] && !shown[i] && !blocked[i] ==> match best {
                                Some(b) => i == b || spec_newer(graph, b as int, i),
                                None => false,
                            },
                    decreases total - c,
                {
                    if reached[c] && !shown[c] && !blocked[c] {
                        let better = match best {
                            Some(b) => {
                                let mine = self.nodes[c].record.time;
                                let other = self.nodes[b].record.time;
                                mine > other || (mine == other && c > b)
                            },
                            None => true,
                        };
                        if better {
                            best = Some(c);
                        }
                    }
                    c += 1;
                }
                match best {
                    None => {
                        proof {
                            assert forall|c: int|
                                spec_reaches(graph, start as int, c) implies #[trigger] walk@.contains(
                                c as usize,
                            ) by {
                                lemma_reaches_bounds(graph, start as int, c);
                                if !walk@.contains(c as usize) {
                                    assert(spec_waits(graph, start as int, walk@, c));
                                    let latest = lemma_latest_waiting_is_ready(
                                        graph,
                                        start as int,
                                        walk@,
                                        total - 1,
                                    );
                                    assert forall|child: int|
                                        spec_reaches(graph, start as int, child)
                                            && #[trigger] spec_is_parent(
                                            graph,
                                            child,
                                            latest,
                                        ) implies walk@.contains(child as usize) by {
                                        lemma_reaches_bounds(graph, start as int, child);
                                        if !walk@.contains(child as usize) {
                                            assert(spec_waits(graph, start as int, walk@, child));
                                        }
                                    }
                                    assert(spec_ready(graph, start as int, walk@, latest));
                                    assert(reached[latest] && !shown[latest] && !blocked[latest]);
                                }
                            }
                        }
                        done = true;
                    },
                    Some(b) => {
                        let ghost before = walk@;
                        walk.push(b);
                        shown.set(b, true);
                        proof {
                            let after = walk@;
                            assert(after =~= before.push(b));
                            assert(after.take(before.len() as int) =~= before);
                            assert forall|i: int| 0 <= i < total implies shown[i] == after.contains(
                                i as usize,
                            ) by {
                                if i == b {
                                    assert(after[before.len() as int] == b);
                                } else {
                                    if before.contains(i as usize) {
                                        let k = choose|k: int|
                                            0 <= k < before.len() && before[k] == i as usize;
                                        assert(after[k] == i as usize);
                                    }
                                    if after.contains(i as usize) {
                                        let k = choose|k: int|
                                            0 <= k < after.len() && after[k] == i as usize;
                                        assert(before[k] == i as usize);
                                    }
                                }
                            }
                            assert forall|n: int| 0 <= n < after.len() implies #[trigger] spec_visit_in_order(
                                graph,
                                start as int,
                                after,
                                n,
                            ) by {
                                if n < before.len() {
                                    assert(spec_visit_in_order(graph, start as int, before, n));
                                    assert(after.take(n) =~= before.take(n));
                                } else {
                                    assert forall|other: int|
                                        other != after[n] && #[trigger] spec_waits(
                                            graph,
                                            start as int,
                                            before,
                                            other,
                                        ) && spec_ready(
                                            graph,
                                            start as int,
                                            before,
                                            other,
                                        ) implies spec_newer(graph, after[n] as int, other) by {
                                        lemma_reaches_bounds(graph, start as int, other);
                                    }
                                }
                            }
                            assert forall|x: int, y: int|
                                0 <= x < after.len() && 0 <= y < after.len() && x != y implies after[x]
                                != after[y] by {
                                if x == before.len() {
                                    assert(before.contains(after[y]));
                                } else if y == before.len() {
                                    assert(before.contains(after[x]));
                                }
                            }
                            lemma_count_below(after, total as int);
                        }
                    },
                }
            }
        }
        walk
    }
}

/// Whether the commit at `at` has a child before the place `bound` that
/// waits to be visited.
pub open spec fn spec_blocked_by(
    graph: GraphView,
    start: int,
    shown: Seq<usize>,
    bound: int,
    at: int,
) -> bool {
    exists|child: int|
        0 <= child < bound && spec_waits(graph, start, shown, child) && #[trigger] spec_is_parent(
            graph,
            child,
            at,
        )
}

/// A list of different places below a bound is no longer than the bound.
proof fn lemma_count_below(places: Seq<usize>, bound: int)
    requires
        places.no_duplicates(),
        forall|i: int| 0 <= i < places.len() ==> places[i] < bound,
        bound >= 0,
    ensures
        places.len() <= bound,
    decreases bound,
{
    if places.len() > 0 {
        if bound == 0 {
            assert(places[0] < 0);
        } else {
            let top = (bound - 1) as usize;
            let rest = places.filter(|p: usize| p != top);
            assert forall|i: int| 0 <= i < rest.len() implies rest[i] < bound - 1 by {
                places.lemma_filter_pred(|p: usize| p != top, i);
                assert(rest.contains(rest[i]));
                places.lemma_filter_contains_rev(|p: usize| p != top, rest[i]);
            }
            lemma_filter_distinct(places, top);
            lemma_count_below(rest, bound - 1);
        }
    }
}

/// Taking one value out of a list of different values leaves different
/// values, and at most one fewer.
proof fn lemma_filter_distinct(places: Seq<usize>, top: usize)
    requires
        places.no_duplicates(),
    ensures
        places.filter(|p: usize| p != top).no_duplicates(),
        places.filter(|p: usize| p != top).len() + 1 >= places.len(),
    decreases places.len(),
{
    let keep = |p: usize| p != top;
    reveal(Seq::filter);
    if places.len() > 0 {
        let init = places.drop_last();
        lemma_filter_distinct(init, top);
        let kept = init.filter(keep);
        assert forall|i: int| 0 <= i < kept.len() implies kept[i] != places.last() by {
            assert(kept.contains(kept[i]));
            init.lemma_filter_contains_rev(keep, kept[i]);
            let k = choose|k: int| 0 <= k < init.len() && init[k] == kept[i];
            assert(places[k] == kept[i]);
        }
        if places.last() == top {
            // the value occurs nowhere else, so nothing else was dropped
            assert forall|i: int| 0 <= i < init.len() implies keep(init[i]) by {
                assert(places[i] != places[places.len() - 1]);
            }
            lemma_filter_all(init, top);
        }
    }
}

/// A list without a value loses nothing when the value is taken out.
proof fn lemma_filter_all(places: Seq<usize>, top: usize)
    requires
        forall|i: int| 0 <= i < places.len() ==> places[i] != top,
    ensures
        places.filter(|p: usize| p != top) == places,
    decreases places.len(),
{
    reveal(Seq::filter);
    if places.len() > 0 {
        lemma_filter_all(places.drop_last(), top);
        assert(places.drop_last().push(places.last()) =~= places);
    }
}

/// Whether `list` shows a walk of the history of the commit at `start`
/// with the limit `limit`, commit by commit.
pub open spec fn spec_shows_walk(
    graph: GraphView,
    start: int,
    limit: Option<u32>,
    list: Seq<CommitInfoView>,
) -> bool {
    exists|walk: Seq<usize>|
        {
            &&& #[trigger] spec_is_walk(graph, start, limit, walk)
            &&& list.len() == walk.len()
            &&& forall|n: int|
                #![trigger walk[n]]
                #![trigger list[n]]
                0 <= n < walk.len() ==> 0 <= walk[n] < graph.len() && list[n] == spec_commit_info(
                    graph[walk[n] as int].record,
                )
        }
}

impl History {
    /// The history of the commit with the identifier `start`, as it is
    /// shown: the commit and its ancestors, newest first, no commit before
    /// all of its children, and no more than `limit` of them where a limit
    /// is given.
    ///
    /// Fails with `ObjectNotFound` where the graph does not hold the
    /// commit.
    pub fn log(&self, start: &String, limit: Option<u32>) -> (res: Result<
        Vec<CommitInfo>,
        JanusError,
    >)
        requires
            self.wf(),
        ensures
            (forall|i: int| 0 <= i < self@.len() ==> (#[trigger] self@[i]).record.id != start@) ==> (
            res matches Err(JanusError::ObjectNotFound(what)) && what@ == start@),
            forall|at: int|
                0 <= at < self@.len() && (#[trigger] self@[at]).record.id == start@ ==> (
                res matches Ok(list) && spec_shows_walk(self@, at, limit, list.deep_view())),
    {
        let at = match self.index_of(start) {
            Some(at) => at,
            None => {
                return Err(JanusError::ObjectNotFound(start.clone()));
            },
        };
        let walk = self.walk(at, limit);
        let ghost graph = self@;
        let mut list: Vec<CommitInfo> = Vec::new();
        let mut n: usize = 0;
        proof {
            assert forall|n: int| 0 <= n < walk.len() implies walk@[n] < graph.len() by {
                assert(spec_visit_in_order(graph, at as int, walk@, n));
                lemma_reaches_bounds(graph, at as int, walk@[n] as int);
            }
        }
        while n < walk.len()
            invariant
                n <= walk.len(),
                graph == self@,
                list.len() == n,
                forall|k: int| 0 <= k < walk.len() ==> walk@[k] < graph.len(),
                forall|k: int|
                    0 <= k < n ==> (#[trigger] list[k]).deep_view() == spec_commit_info(
                        graph[walk@[k] as int].record,
                    ),
            decreases walk.len() - n,
        {
            list.push(commit_to_info(&self.nodes[walk[n]].record));
            n += 1;
        }
        proof {
            assert(spec_is_walk(graph, at as int, limit, walk@));
            assert forall|i: int| 0 <= i < graph.len() && (#[trigger] graph[i]).record.id
                == start@ implies i == at by {
                if i != at {
                    if i < at {
                        assert(graph[i].record.id != graph[at as int].record.id);
                    } else {
                        assert(graph[at as int].record.id != graph[i].record.id);
                    }
                }
            }
        }
        Ok(list)
    }
}

/// Among the commits that wait and are ready there is one newest commit:
/// two walks that agree so far agree on the next visit.
proof fn lemma_next_visit(
    graph: GraphView,
    start: int,
    first: Seq<usize>,
    second: Seq<usize>,
    n: int,
)
    requires
        0 <= n < first.len(),
        0 <= n < second.len(),
        first.take(n) == second.take(n),
        spec_visit_in_order(graph, start, first, n),
        spec_visit_in_order(graph, start, second, n),
    ensures
        first[n] == second[n],
{
    if first[n] != second[n] {
        assert(spec_waits(graph, start, first.take(n), second[n] as int));
        assert(spec_newer(graph, first[n] as int, second[n] as int));
        assert(spec_waits(graph, start, second.take(n), first[n] as int));
        assert(spec_newer(graph, second[n] as int, first[n] as int));
    }
}

/// A walk with a limit agrees with the walk without a limit as far as it
/// goes.
proof fn lemma_walks_agree(
    graph: GraphView,
    start: int,
    k: u32,
    limited: Seq<usize>,
    whole: Seq<usize>,
    n: int,
)
    requires
        spec_is_walk(graph, start, Some(k), limited),
        spec_is_walk(graph, start, None, whole),
        0 <= n <= limited.len(),
    ensures
        n <= whole.len(),
        limited.take(n) == whole.take(n),
    decreases n,
{
    if n == 0 {
        assert(limited.take(0) =~= whole.take(0));
    } else {
        lemma_walks_agree(graph, start, k, limited, whole, n - 1);
        let m = n - 1;
        assert(spec_visit_in_order(graph, start, limited, m));
        let next = limited[m];
        assert(whole.contains(next));
        let at = choose|at: int| 0 <= at < whole.len() && whole[at] == next;
        if at < m {
            assert(whole.take(m)[at] == next);
            assert(limited.take(m).contains(next));
        }
        assert(spec_visit_in_order(graph, start, whole, m));
        lemma_next_visit(graph, start, limited, whole, m);
        assert(limited.take(n) =~= limited.take(m).push(limited[m]));
        assert(whole.take(n) =~= whole.take(m).push(whole[m]));
    }
}

/// The history with a limit is the beginning of the history without one:
/// its first `limit` commits, or all of them where there are fewer.
pub proof fn lemma_limit_gives_prefix(
    graph: GraphView,
    start: int,
    k: u32,
    limited: Seq<usize>,
    whole: Seq<usize>,
)
    requires
        spec_is_walk(graph, start, Some(k), limited),
        spec_is_walk(graph, start, None, whole),
    ensures
        limited.len() <= whole.len(),
        limited == whole.take(limited.len() as int),
        limited.len() == if k <= whole.len() {
            k as nat
        } else {
            whole.len()
        },
{
    lemma_walks_agree(graph, start, k, limited, whole, limited.len() as int);
    assert(limited.take(limited.len() as int) =~= limited);
    if limited.len() < whole.len() && limited.len() != k {
        let extra = whole[limited.len() as int];
        assert(spec_visit_in_order(graph, start, whole, limited.len() as int));
        assert(limited.contains(extra));
        assert(whole.take(limited.len() as int).contains(extra));
    }
}

/// Whether the graph is a single line of commits: the first has no parent,
/// and every other commit has the one before it as its only parent.
pub open spec fn spec_is_chain(graph: GraphView) -> bool {
    forall|i: int|
        0 <= i < graph.len() ==> if i == 0 {
            (#[trigger] graph[i]).parents.len() == 0
        } else {
            graph[i].parents.len() == 1 && graph[i].parents[0] == i - 1
        }
}

/// In a line of commits every commit reaches all the commits before it.
proof fn lemma_chain_reaches(graph: GraphView, from: int, to: int)
    requires
        spec_is_chain(graph),
        0 <= to <= from < graph.len(),
    ensures
        spec_reaches(graph, from, to),
    decreases from,
{
    if from != to {
        lemma_chain_reaches(graph, from - 1, to);
        assert(graph[from].parents[0] == from - 1);
        assert(spec_is_parent(graph, from, from - 1));
    }
}

/// The walk of a line of commits goes back along the line, as far as it
/// goes.
proof fn lemma_chain_walk_so_far(graph: GraphView, limit: Option<u32>, walk: Seq<usize>, n: int)
    requires
        spec_is_chain(graph),
        graph.len() > 0,
        spec_is_walk(graph, graph.len() - 1, limit, walk),
        0 <= n <= walk.len(),
    ensures
        n <= graph.len(),
        forall|m: int| 0 <= m < n ==> walk[m] == graph.len() - 1 - m,
    decreases n,
{
    let tip = graph.len() - 1;
    if n > 0 {
        lemma_chain_walk_so_far(graph, limit, walk, n - 1);
        let m = n - 1;
        let x = walk[m] as int;
        let before = walk.take(m);
        assert(spec_visit_in_order(graph, tip, walk, m));
        lemma_reaches_bounds(graph, tip, x);
        if x > tip - m {
            // the commits after `tip - m` were all visited before
            assert(before[tip - x] == x);
            assert(before.contains(x as usize));
        }
        if x < tip - m {
            // the child of the commit waits, so the commit is not ready
            lemma_chain_reaches(graph, tip, x + 1);
            assert(graph[x + 1].parents[0] == x);
            assert(spec_is_parent(graph, x + 1, x));
            assert(before.contains((x + 1) as usize));
            let at = choose|at: int| 0 <= at < before.len() && before[at] == (x + 1) as usize;
            assert(walk[at] == tip - at);
        }
    }
}

/// The history of the tip of a line of commits: where `n` commits were
/// made one after another on top of a first one, the history without a
/// limit holds all `n + 1` commits, from the last one back to the first,
/// and the history with a limit holds the first `limit` of these.
pub proof fn lemma_history_of_chain(graph: GraphView, limit: Option<u32>, walk: Seq<usize>)
    requires
        spec_is_chain(graph),
        graph.len() > 0,
        spec_is_walk(graph, graph.len() - 1, limit, walk),
    ensures
        forall|m: int| 0 <= m < walk.len() ==> walk[m] == graph.len() - 1 - m,
        walk.len() == match limit {
            Some(k) => if k <= graph.len() {
                k as nat
            } else {
                graph.len()
            },
            None => graph.len(),
        },
{
    let tip = graph.len() - 1;
    lemma_chain_walk_so_far(graph, limit, walk, walk.len() as int);
    if limit != Some(walk.len() as u32) {
        lemma_chain_reaches(graph, tip, 0);
        let first = 0int;
        assert(walk.contains(first as usize));
        let at = choose|at: int| 0 <= at < walk.len() && walk[at] == first as usize;
        assert(walk[at] == tip - at);
    }
}

/// The history of the tip of a line of commits is strictly newest first,
/// where each commit was made after the one before it.
pub proof fn lemma_chain_is_newest_first(
    graph: GraphView,
    limit: Option<u32>,
    walk: Seq<usize>,
    earlier: int,
    later: int,
)
    requires
        spec_is_chain(graph),
        graph.len() > 0,
        spec_is_walk(graph, graph.len() - 1, limit, walk),
        forall|i: int, j: int|
            0 <= i < j < graph.len() ==> (#[trigger] graph[i]).record.time < (
            #[trigger] graph[j]).record.time,
        0 <= earlier < later < walk.len(),
    ensures
        graph[walk[earlier] as int].record.time > graph[walk[later] as int].record.time,
{
    lemma_history_of_chain(graph, limit, walk);
}

impl History {
    /// The identifier of the merge base of the commits with the identifiers
    /// `a` and `b`: their common ancestor that was added last, which is a
    /// nearest one; none where they have no common ancestor.
    ///
    /// Fails with `ObjectNotFound` where the graph does not hold one of the
    /// two commits; the failure carries the identifier, that of `a` where
    /// it holds neither.
    pub fn merge_base_of(&self, a: &String, b: &String) -> (res: Result<Option<String>, JanusError>)
        requires
            self.wf(),
        ensures
            (forall|i: int| 0 <= i < self@.len() ==> (#[trigger] self@[i]).record.id != a@) ==> (
            res matches Err(JanusError::ObjectNotFound(what)) && what@ == a@),
            (exists|i: int| 0 <= i < self@.len() && (#[trigger] self@[i]).record.id == a@) && (
            forall|i: int| 0 <= i < self@.len() ==> (#[trigger] self@[i]).record.id != b@) ==> (
            res matches Err(JanusError::ObjectNotFound(what)) && what@ == b@),
            forall|at_a: int, at_b: int|
                0 <= at_a < self@.len() && 0 <= at_b < self@.len() && (
                #[trigger] self@[at_a]).record.id == a@ && (#[trigger] self@[at_b]).record.id
                    == b@ ==> match res {
                    Ok(Some(id)) => exists|m: int|
                        0 <= m < self@.len() && (#[trigger] self@[m]).record.id == id@
                            && spec_is_merge_base(self@, at_a, at_b, Some(m)),
                    Ok(None) => spec_is_merge_base(self@, at_a, at_b, None),
                    Err(_) => false,
                },
    {
        let at_a = match self.index_of(a) {
            Some(at) => at,
            None => {
                return Err(JanusError::ObjectNotFound(a.clone()));
            },
        };
        let at_b = match self.index_of(b) {
            Some(at) => at,
            None => {
                return Err(JanusError::ObjectNotFound(b.clone()));
            },
        };
        let base = self.merge_base(at_a, at_b);
        proof {
            let graph = self@;
            assert forall|i: int, j: int|
                0 <= i < graph.len() && 0 <= j < graph.len() && (#[trigger] graph[i]).record.id == (
                #[trigger] graph[j]).record.id implies i == j by {
                if i < j {
                    assert(graph[i].record.id != graph[j].record.id);
                } else if j < i {
                    assert(graph[j].record.id != graph[i].record.id);
                }
            }
        }
        match base {
            Some(m) => {
                proof {
                    lemma_reaches_bounds(self@, at_a as int, m as int);
                }
                let id = self.nodes[m].record.id.clone();
                proof {
                    let graph = self@;
                    assert(graph[m as int].record.id == id@);
                    assert forall|i: int, j: int|
                        0 <= i < graph.len() && 0 <= j < graph.len() && (
                        #[trigger] graph[i]).record.id == a@ && (#[trigger] graph[j]).record.id
                            == b@ implies exists|k: int|
                        0 <= k < graph.len() && (#[trigger] graph[k]).record.id == id@
                            && spec_is_merge_base(graph, i, j, Some(k)) by {
                        assert(i == at_a && j == at_b);
                        assert(spec_is_merge_base(graph, i, j, Some(m as int)));
                    }
                }
                Ok(Some(id))
            },
            None => Ok(None),
        }
    }
}

/// Two walks of one history agree as far as both go.
proof fn lemma_common_beginning(
    graph: GraphView,
    start: int,
    first_limit: Option<u32>,
    second_limit: Option<u32>,
    first: Seq<usize>,
    second: Seq<usize>,
    n: int,
)
    requires
        spec_is_walk(graph, start, first_limit, first),
        spec_is_walk(graph, start, second_limit, second),
        0 <= n <= first.len(),
        n <= second.len(),
    ensures
        first.take(n) == second.take(n),
    decreases n,
{
    if n == 0 {
        assert(first.take(0) =~= second.take(0));
    } else {
        let m = n - 1;
        lemma_common_beginning(graph, start, first_limit, second_limit, first, second, m);
        assert(spec_visit_in_order(graph, start, first, m));
        assert(spec_visit_in_order(graph, start, second, m));
        lemma_next_visit(graph, start, first, second, m);
        assert(first.take(n) =~= first.take(m).push(first[m]));
        assert(second.take(n) =~= second.take(m).push(second[m]));
    }
}

/// A walk that is shorter than another walk of the same history stopped at
/// its limit.
proof fn lemma_shorter_walk_is_limited(
    graph: GraphView,
    start: int,
    first_limit: Option<u32>,
    second_limit: Option<u32>,
    first: Seq<usize>,
    second: Seq<usize>,
)
    requires
        spec_is_walk(graph, start, first_limit, first),
        spec_is_walk(graph, start, second_limit, second),
        first.len() < second.len(),
    ensures
        first_limit == Some(first.len() as u32),
{
    let n = first.len() as int;
    lemma_common_beginning(graph, start, first_limit, second_limit, first, second, n);
    assert(first.take(n) =~= first);
    assert(spec_visit_in_order(graph, start, second, n));
    if first_limit != Some(first.len() as u32) {
        assert(first.contains(second[n]));
    }
}

/// The walk of a history is determined: two walks from the same commit
/// with the same limit visit the same commits in the same order.
pub proof fn lemma_walk_unique(
    graph: GraphView,
    start: int,
    limit: Option<u32>,
    first: Seq<usize>,
    second: Seq<usize>,
)
    requires
        spec_is_walk(graph, start, limit, first),
        spec_is_walk(graph, start, limit, second),
    ensures
        first == second,
{
    if first.len() < second.len() {
        lemma_shorter_walk_is_limited(graph, start, limit, limit, first, second);
    } else if second.len() < first.len() {
        lemma_shorter_walk_is_limited(graph, start, limit, limit, second, first);
    } else {
        let n = first.len() as int;
        lemma_common_beginning(graph, start, limit, limit, first, second, n);
        assert(first.take(n) =~= first);
        assert(second.take(n) =~= second);
    }
}

/// A walk that visits anything visits the commit that it starts from
/// first.
pub proof fn lemma_walk_starts_at_start(
    graph: GraphView,
    start: int,
    limit: Option<u32>,
    walk: Seq<usize>,
)
    requires
        spec_is_walk(graph, start, limit, walk),
        walk.len() > 0,
    ensures
        walk[0] == start,
{
    let first = walk[0] as int;
    assert(spec_visit_in_order(graph, start, walk, 0));
    assert(walk.take(0) =~= Seq::<usize>::empty());
    if first != start {
        let child = lemma_reached_through(graph, start, first);
        assert(walk.take(0).contains(child as usize));
    }
}

/// What a history shows is determined: two lists that show the walk from
/// the same commit with the same limit are the same, and a list that shows
/// anything shows the commit that the walk starts from first.
pub proof fn lemma_shown_walk_unique(
    graph: GraphView,
    start: int,
    limit: Option<u32>,
    first: Seq<CommitInfoView>,
    second: Seq<CommitInfoView>,
)
    requires
        spec_shows_walk(graph, start, limit, first),
        spec_shows_walk(graph, start, limit, second),
    ensures
        first == second,
        first.len() > 0 ==> 0 <= start < graph.len() && first[0] == spec_commit_info(
            graph[start].record,
        ),
{
    let one = choose|walk: Seq<usize>|
        {
            &&& #[trigger] spec_is_walk(graph, start, limit, walk)
            &&& first.len() == walk.len()
            &&& forall|n: int|
                #![trigger walk[n]]
                #![trigger first[n]]
                0 <= n < walk.len() ==> 0 <= walk[n] < graph.len() && first[n]
                    == spec_commit_info(graph[walk[n] as int].record)
        };
    let two = choose|walk: Seq<usize>|
        {
            &&& #[trigger] spec_is_walk(graph, start, limit, walk)
            &&& second.len() == walk.len()
            &&& forall|n: int|
                #![trigger walk[n]]
                #![trigger second[n]]
                0 <= n < walk.len() ==> 0 <= walk[n] < graph.len() && second[n]
                    == spec_commit_info(graph[walk[n] as int].record)
        };
    lemma_walk_unique(graph, start, limit, one, two);
    assert(first =~= second);
    if first.len() > 0 {
        lemma_walk_starts_at_start(graph, start, limit, one);
        assert(one[0] < graph.len());
    }
}

} // verus!
