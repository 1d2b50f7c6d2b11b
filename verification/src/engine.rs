//! The execution engine: which node may be evaluated next, and the evaluation
//! of a whole graph.
//!
//! [`Scheduler`] keeps the ready set of one evaluation. It hands out a node
//! only when every node that it reads is complete, and it hands out each node
//! once. Whoever drives it, one thread or a pool, evaluates the node and
//! reports it complete.

use crate::backend::{Backend, GateFailure};
use crate::graph::{
    lemma_gate_value, node_ok, node_value, outputs_ok, refs_below, refs_values,
    ConstructionError, FheCircuit, Node, NodeRef,
};
use vstd::prelude::*;

verus! {

/// The nodes that a node reads.
pub open spec fn reads(node: Node) -> Seq<NodeRef> {
    match node {
        Node::Input(_) => Seq::empty(),
        Node::Gate(_, args) => args@,
        Node::Output(source) => seq![source],
    }
}

/// Where a node stands in an evaluation.
#[derive(Clone, Copy, Debug, PartialEq, Eq, Structural)]
pub enum Stage {
    /// Some node that it reads is not complete.
    Waiting,
    /// Every node that it reads is complete; it waits to be handed out.
    Ready,
    /// It was handed out and is being evaluated.
    Running,
    /// Its value is there.
    Done,
}

/// Whether every node that `refs` names is complete.
pub open spec fn all_done(stages: Seq<Stage>, refs: Seq<NodeRef>) -> bool {
    forall|j: int|
        0 <= j < refs.len() ==> (#[trigger] refs[j]).index < stages.len() && stages[refs[j].index as int]
            == Stage::Done
}

/// The number of complete nodes.
pub open spec fn count_done(stages: Seq<Stage>) -> nat
    decreases stages.len(),
{
    if stages.len() == 0 {
        0
    } else {
        count_done(stages.drop_last()) + if stages.last() == Stage::Done {
            1nat
        } else {
            0nat
        }
    }
}

/// The stages after node `k` is reported complete: `k` is done, and every
/// waiting node that now has all it reads becomes ready.
pub open spec fn after_completion(nodes: Seq<Node>, stages: Seq<Stage>, k: int) -> Seq<Stage> {
    let marked = stages.update(k, Stage::Done);
    Seq::new(
        stages.len(),
        |i: int|
            if marked[i] == Stage::Waiting && all_done(marked, reads(nodes[i])) {
                Stage::Ready
            } else {
                marked[i]
            },
    )
}

/// Whether `i` occurs in `list`.
spec fn listed(list: Seq<usize>, i: int) -> bool {
    exists|e: int| 0 <= e < list.len() && #[trigger] list[e] == i
}

proof fn lemma_count_bound(stages: Seq<Stage>)
    ensures
        count_done(stages) <= stages.len(),
    decreases stages.len(),
{
    if stages.len() > 0 {
        lemma_count_bound(stages.drop_last());
    }
}

proof fn lemma_count_update(stages: Seq<Stage>, k: int, s: Stage)
    requires
        0 <= k < stages.len(),
        stages[k] != Stage::Done,
    ensures
        count_done(stages.update(k, s)) == count_done(stages) + if s == Stage::Done {
            1nat
        } else {
            0nat
        },
    decreases stages.len(),
{
    if k == stages.len() - 1 {
        assert(stages.update(k, s).drop_last() =~= stages.drop_last());
    } else {
        assert(stages.update(k, s).drop_last() =~= stages.drop_last().update(k, s));
        lemma_count_update(stages.drop_last(), k, s);
    }
}

proof fn lemma_count_push(stages: Seq<Stage>, s: Stage)
    ensures
        count_done(stages.push(s)) == count_done(stages) + if s == Stage::Done {
            1nat
        } else {
            0nat
        },
{
    assert(stages.push(s).drop_last() =~= stages);
}

proof fn lemma_count_full(stages: Seq<Stage>)
    requires
        count_done(stages) == stages.len(),
    ensures
        forall|i: int| 0 <= i < stages.len() ==> stages[i] == Stage::Done,
    decreases stages.len(),
{
    if stages.len() > 0 {
        lemma_count_bound(stages.drop_last());
        lemma_count_full(stages.drop_last());
        assert forall|i: int| 0 <= i < stages.len() implies stages[i] == Stage::Done by {
            if i < stages.len() - 1 {
                assert(stages[i] == stages.drop_last()[i]);
            }
        }
    }
}

proof fn lemma_count_all(stages: Seq<Stage>)
    requires
        forall|i: int| 0 <= i < stages.len() ==> stages[i] == Stage::Done,
    ensures
        count_done(stages) == stages.len(),
    decreases stages.len(),
{
    if stages.len() > 0 {
        lemma_count_all(stages.drop_last());
    }
}

/// Whether `i` occurs in `list` at position `from` or later.
spec fn listed_from(list: Seq<usize>, i: int, from: int) -> bool {
    exists|e: int| from <= e < list.len() && #[trigger] list[e] == i
}

proof fn lemma_all_done_same(a: Seq<Stage>, b: Seq<Stage>, refs: Seq<NodeRef>)
    requires
        a.len() == b.len(),
        forall|i: int| 0 <= i < a.len() ==> (a[i] == Stage::Done) == (b[i] == Stage::Done),
    ensures
        all_done(a, refs) == all_done(b, refs),
{
    if all_done(a, refs) {
        assert forall|j: int| 0 <= j < refs.len() implies (#[trigger] refs[j]).index < b.len()
            && b[refs[j].index as int] == Stage::Done by {
            assert(a[refs[j].index as int] == Stage::Done);
        }
    }
    if all_done(b, refs) {
        assert forall|j: int| 0 <= j < refs.len() implies (#[trigger] refs[j]).index < a.len()
            && a[refs[j].index as int] == Stage::Done by {
            assert(b[refs[j].index as int] == Stage::Done);
        }
    }
}

/// In a graph that may be evaluated, every node reads earlier nodes only.
pub proof fn lemma_reads_below(graph: &FheCircuit, i: int)
    requires
        graph.wf(),
        outputs_ok(graph.nodes()),
        0 <= i < graph.nodes().len(),
    ensures
        refs_below(reads(graph.nodes()[i]), i),
{
    let node = graph.nodes()[i];
    match node {
        Node::Output(source) => {
            assert(reads(node)[0] == source);
        },
        _ => {},
    }
}

fn operand_count(node: &Node) -> (n: usize)
    ensures
        n == reads(*node).len(),
{
    match node {
        Node::Input(_) => 0,
        Node::Gate(_, args) => args.len(),
        Node::Output(_) => 1,
    }
}

fn operand_at(node: &Node, j: usize) -> (r: NodeRef)
    requires
        j < reads(*node).len(),
    ensures
        r == reads(*node)[j as int],
{
    match node {
        Node::Input(slot) => NodeRef { index: *slot },
        Node::Gate(_, args) => args[j],
        Node::Output(source) => *source,
    }
}

/// Whether every node reads earlier nodes only.
#[verifier::opaque]
spec fn reads_back(nodes: Seq<Node>) -> bool {
    forall|i: int| 0 <= i < nodes.len() ==> refs_below(reads(#[trigger] nodes[i]), i)
}

/// Whether `links[k]` lists every node that reads node `k`, and only nodes.
#[verifier::opaque]
spec fn links_ok(nodes: Seq<Node>, links: Seq<Seq<usize>>) -> bool {
    &&& links.len() == nodes.len()
    &&& forall|i: int, j: int|
        0 <= i < nodes.len() && 0 <= j < reads(nodes[i]).len() ==> listed(
            links[(#[trigger] reads(nodes[i])[j]).index as int],
            i,
        )
    &&& forall|k: int, e: int|
        0 <= k < links.len() && 0 <= e < links[k].len() ==> #[trigger] links[k][e] < nodes.len()
}

/// Whether exactly the nodes that lack something they read are waiting.
#[verifier::opaque]
spec fn stages_ok(nodes: Seq<Node>, stages: Seq<Stage>) -> bool {
    &&& stages.len() == nodes.len()
    &&& forall|i: int|
        0 <= i < nodes.len() ==> (#[trigger] stages[i] == Stage::Waiting) == !all_done(
            stages,
            reads(nodes[i]),
        )
}

/// Whether `ready` lists exactly the ready nodes, each once.
#[verifier::opaque]
spec fn queue_ok(stages: Seq<Stage>, ready: Seq<usize>) -> bool {
    &&& forall|e: int|
        0 <= e < ready.len() ==> #[trigger] ready[e] < stages.len() && stages[ready[e] as int]
            == Stage::Ready
    &&& forall|e1: int, e2: int|
        0 <= e1 < e2 < ready.len() ==> #[trigger] ready[e1] != #[trigger] ready[e2]
    &&& forall|i: int|
        0 <= i < stages.len() && #[trigger] stages[i] == Stage::Ready ==> listed(ready, i)
}

/// The state while the nodes that read a completed node are looked at one by
/// one: `marked` is the state right after the completion, `stages` the state
/// now, and the readers from position `e` on are still to be looked at.
#[verifier::opaque]
spec fn releasing(
    nodes: Seq<Node>,
    marked: Seq<Stage>,
    stages: Seq<Stage>,
    pending: Seq<usize>,
    e: int,
) -> bool {
    &&& stages.len() == nodes.len()
    &&& marked.len() == nodes.len()
    &&& forall|i: int|
        0 <= i < nodes.len() ==> #[trigger] stages[i] == marked[i] || (marked[i] == Stage::Waiting
            && all_done(marked, reads(nodes[i])) && stages[i] == Stage::Ready)
    &&& forall|i: int|
        0 <= i < nodes.len() && #[trigger] stages[i] == Stage::Waiting && all_done(
            marked,
            reads(nodes[i]),
        ) ==> listed_from(pending, i, e)
    &&& forall|i: int|
        0 <= i < nodes.len() && #[trigger] marked[i] != Stage::Waiting ==> all_done(
            marked,
            reads(nodes[i]),
        )
}

proof fn lemma_link_bound(nodes: Seq<Node>, links: Seq<Seq<usize>>, k: int, e: int)
    requires
        links_ok(nodes, links),
        0 <= k < nodes.len(),
        0 <= e < links[k].len(),
    ensures
        links[k][e] < nodes.len(),
        links.len() == nodes.len(),
{
    reveal(links_ok);
}

proof fn lemma_reads_back(nodes: Seq<Node>, i: int)
    requires
        reads_back(nodes),
        0 <= i < nodes.len(),
    ensures
        refs_below(reads(nodes[i]), i),
{
    reveal(reads_back);
}

proof fn lemma_queue_pop(stages: Seq<Stage>, ready: Seq<usize>)
    requires
        queue_ok(stages, ready),
        ready.len() > 0,
    ensures
        ready.last() < stages.len(),
        stages[ready.last() as int] == Stage::Ready,
        queue_ok(stages.update(ready.last() as int, Stage::Running), ready.drop_last()),
{
    reveal(queue_ok);
    let k = ready.last();
    let after = stages.update(k as int, Stage::Running);
    let rest = ready.drop_last();
    assert(ready[ready.len() - 1] == k);
    assert forall|i: int| 0 <= i < after.len() && #[trigger] after[i] == Stage::Ready implies listed(
        rest,
        i,
    ) by {
        assert(stages[i] == Stage::Ready);
        let e = choose|e: int| 0 <= e < ready.len() && #[trigger] ready[e] == i;
        assert(rest[e] == i);
    }
}

proof fn lemma_queue_empty(stages: Seq<Stage>, ready: Seq<usize>)
    requires
        queue_ok(stages, ready),
        ready.len() == 0,
    ensures
        forall|i: int| 0 <= i < stages.len() ==> stages[i] != Stage::Ready,
{
    reveal(queue_ok);
    assert forall|i: int| 0 <= i < stages.len() implies stages[i] != Stage::Ready by {
        if stages[i] == Stage::Ready {
            assert(listed(ready, i));
        }
    }
}

proof fn lemma_queue_push(stages: Seq<Stage>, ready: Seq<usize>, c: usize)
    requires
        queue_ok(stages, ready),
        c < stages.len(),
        stages[c as int] != Stage::Ready,
    ensures
        queue_ok(stages.update(c as int, Stage::Ready), ready.push(c)),
{
    reveal(queue_ok);
    let after = stages.update(c as int, Stage::Ready);
    let longer = ready.push(c);
    assert(longer[ready.len() as int] == c);
    assert forall|i: int| 0 <= i < after.len() && #[trigger] after[i] == Stage::Ready implies listed(
        longer,
        i,
    ) by {
        if i != c {
            let e = choose|e: int| 0 <= e < ready.len() && #[trigger] ready[e] == i;
            assert(longer[e] == i);
        }
    }
}

proof fn lemma_queue_mark(stages: Seq<Stage>, ready: Seq<usize>, k: int, s: Stage)
    requires
        queue_ok(stages, ready),
        0 <= k < stages.len(),
        stages[k] != Stage::Ready,
        s != Stage::Ready,
    ensures
        queue_ok(stages.update(k, s), ready),
{
    reveal(queue_ok);
    let after = stages.update(k, s);
    assert forall|i: int| 0 <= i < after.len() && #[trigger] after[i] == Stage::Ready implies listed(
        ready,
        i,
    ) by {
        assert(stages[i] == Stage::Ready);
    }
}

proof fn lemma_stages_running(nodes: Seq<Node>, stages: Seq<Stage>, k: int)
    requires
        stages_ok(nodes, stages),
        0 <= k < stages.len(),
        stages[k] == Stage::Ready,
    ensures
        all_done(stages, reads(nodes[k])),
        stages_ok(nodes, stages.update(k, Stage::Running)),
{
    reveal(stages_ok);
    let after = stages.update(k, Stage::Running);
    assert forall|i: int| 0 <= i < nodes.len() implies (#[trigger] after[i] == Stage::Waiting)
        == !all_done(after, reads(nodes[i])) by {
        lemma_all_done_same(after, stages, reads(nodes[i]));
        assert((stages[i] == Stage::Waiting) == !all_done(stages, reads(nodes[i])));
    }
}

proof fn lemma_release_start(nodes: Seq<Node>, links: Seq<Seq<usize>>, before: Seq<Stage>, k: int)
    requires
        links_ok(nodes, links),
        stages_ok(nodes, before),
        0 <= k < nodes.len(),
        before[k] == Stage::Running,
    ensures
        releasing(
            nodes,
            before.update(k, Stage::Done),
            before.update(k, Stage::Done),
            links[k],
            0,
        ),
{
    reveal(links_ok);
    reveal(stages_ok);
    reveal(releasing);
    let marked = before.update(k, Stage::Done);
    assert forall|i: int|
        0 <= i < nodes.len() && #[trigger] marked[i] == Stage::Waiting && all_done(
            marked,
            reads(nodes[i]),
        ) implies listed_from(links[k], i, 0) by {
        let refs = reads(nodes[i]);
        assert(before[i] == Stage::Waiting);
        assert(!all_done(before, refs));
        let j = choose|j: int|
            0 <= j < refs.len() && !((#[trigger] refs[j]).index < before.len()
                && before[refs[j].index as int] == Stage::Done);
        assert(marked[refs[j].index as int] == Stage::Done);
        assert(refs[j].index == k);
        assert(listed(links[reads(nodes[i])[j].index as int], i));
        let e = choose|e: int| 0 <= e < links[k].len() && #[trigger] links[k][e] == i;
        assert(0 <= e < links[k].len() && links[k][e] == i);
    }
    assert forall|i: int| 0 <= i < nodes.len() && #[trigger] marked[i] != Stage::Waiting implies all_done(
        marked,
        reads(nodes[i]),
    ) by {
        let refs = reads(nodes[i]);
        assert(before[i] != Stage::Waiting);
        assert(all_done(before, refs));
        assert forall|j: int| 0 <= j < refs.len() implies (#[trigger] refs[j]).index < marked.len()
            && marked[refs[j].index as int] == Stage::Done by {}
    }
}

proof fn lemma_release_same(
    nodes: Seq<Node>,
    marked: Seq<Stage>,
    stages: Seq<Stage>,
    pending: Seq<usize>,
    e: int,
    refs: Seq<NodeRef>,
)
    requires
        releasing(nodes, marked, stages, pending, e),
    ensures
        all_done(stages, refs) == all_done(marked, refs),
        stages.len() == nodes.len(),
{
    reveal(releasing);
    lemma_all_done_same(stages, marked, refs);
}

proof fn lemma_release_skip(
    nodes: Seq<Node>,
    marked: Seq<Stage>,
    stages: Seq<Stage>,
    pending: Seq<usize>,
    e: int,
)
    requires
        releasing(nodes, marked, stages, pending, e),
        0 <= e < pending.len(),
        pending[e] < nodes.len(),
        !(stages[pending[e] as int] == Stage::Waiting && all_done(
            marked,
            reads(nodes[pending[e] as int]),
        )),
    ensures
        releasing(nodes, marked, stages, pending, e + 1),
{
    reveal(releasing);
    assert forall|i: int|
        0 <= i < nodes.len() && #[trigger] stages[i] == Stage::Waiting && all_done(
            marked,
            reads(nodes[i]),
        ) implies listed_from(pending, i, e + 1) by {
        let x = choose|x: int| e <= x < pending.len() && #[trigger] pending[x] == i;
        assert(x != e);
    }
}

proof fn lemma_release_one(
    nodes: Seq<Node>,
    marked: Seq<Stage>,
    stages: Seq<Stage>,
    pending: Seq<usize>,
    e: int,
)
    requires
        releasing(nodes, marked, stages, pending, e),
        0 <= e < pending.len(),
        pending[e] < nodes.len(),
        stages[pending[e] as int] == Stage::Waiting,
        all_done(marked, reads(nodes[pending[e] as int])),
    ensures
        releasing(nodes, marked, stages.update(pending[e] as int, Stage::Ready), pending, e + 1),
{
    reveal(releasing);
    let c = pending[e] as int;
    let after = stages.update(c, Stage::Ready);
    assert forall|i: int|
        0 <= i < nodes.len() && #[trigger] after[i] == Stage::Waiting && all_done(
            marked,
            reads(nodes[i]),
        ) implies listed_from(pending, i, e + 1) by {
        assert(stages[i] == Stage::Waiting);
        let x = choose|x: int| e <= x < pending.len() && #[trigger] pending[x] == i;
        assert(x != e);
    }
    assert forall|i: int| 0 <= i < nodes.len() implies #[trigger] after[i] == marked[i] || (
    marked[i] == Stage::Waiting && all_done(marked, reads(nodes[i])) && after[i] == Stage::Ready) by {
        assert(stages[i] == marked[i] || (marked[i] == Stage::Waiting && all_done(
            marked,
            reads(nodes[i]),
        ) && stages[i] == Stage::Ready));
    }
}

proof fn lemma_release_end(
    nodes: Seq<Node>,
    before: Seq<Stage>,
    k: int,
    stages: Seq<Stage>,
    pending: Seq<usize>,
)
    requires
        0 <= k < nodes.len(),
        before.len() == nodes.len(),
        releasing(nodes, before.update(k, Stage::Done), stages, pending, pending.len() as int),
    ensures
        stages == after_completion(nodes, before, k),
        stages_ok(nodes, stages),
{
    reveal(releasing);
    reveal(stages_ok);
    let marked = before.update(k, Stage::Done);
    assert forall|i: int| 0 <= i < nodes.len() implies #[trigger] stages[i] == after_completion(
        nodes,
        before,
        k,
    )[i] by {
        assert(stages[i] == marked[i] || (marked[i] == Stage::Waiting && all_done(
            marked,
            reads(nodes[i]),
        ) && stages[i] == Stage::Ready));
        if stages[i] == Stage::Waiting && all_done(marked, reads(nodes[i])) {
            assert(listed_from(pending, i, pending.len() as int));
        }
    }
    assert(stages =~= after_completion(nodes, before, k));
    assert forall|i: int| 0 <= i < nodes.len() implies (#[trigger] stages[i] == Stage::Waiting)
        == !all_done(stages, reads(nodes[i])) by {
        lemma_all_done_same(stages, marked, reads(nodes[i]));
        assert(stages[i] == marked[i] || (marked[i] == Stage::Waiting && all_done(
            marked,
            reads(nodes[i]),
        ) && stages[i] == Stage::Ready));
        if stages[i] != Stage::Waiting && stages[i] == marked[i] {
            assert(all_done(marked, reads(nodes[i])));
        }
    }
}

proof fn lemma_stages_idle(nodes: Seq<Node>, stages: Seq<Stage>, bound: int)
    requires
        reads_back(nodes),
        stages_ok(nodes, stages),
        0 <= bound <= stages.len(),
        forall|i: int|
            0 <= i < stages.len() ==> stages[i] != Stage::Ready && stages[i] != Stage::Running,
    ensures
        forall|i: int| 0 <= i < bound ==> stages[i] == Stage::Done,
    decreases bound,
{
    reveal(stages_ok);
    if bound > 0 {
        lemma_stages_idle(nodes, stages, bound - 1);
        let i = bound - 1;
        if stages[i] == Stage::Waiting {
            lemma_reads_back(nodes, i);
            let refs = reads(nodes[i]);
            assert forall|j: int| 0 <= j < refs.len() implies (#[trigger] refs[j]).index
                < stages.len() && stages[refs[j].index as int] == Stage::Done by {}
            assert(all_done(stages, refs));
        }
    }
}

/// The ready set of one evaluation of a graph.
pub struct Scheduler<'a> {
    graph: &'a FheCircuit,
    consumers: Vec<Vec<usize>>,
    stages: Vec<Stage>,
    ready: Vec<usize>,
    done: usize,
}

impl<'a> Scheduler<'a> {
    /// The nodes of the graph under evaluation.
    pub closed spec fn nodes(&self) -> Seq<Node> {
        self.graph.nodes()
    }

    /// The stage of each node.
    pub closed spec fn stages(&self) -> Seq<Stage> {
        self.stages@
    }

    /// For each node, the nodes that read it.
    spec fn links(&self) -> Seq<Seq<usize>> {
        Seq::new(self.consumers@.len(), |k: int| self.consumers@[k]@)
    }

    /// The invariant of a scheduler.
    pub closed spec fn wf(&self) -> bool {
        &&& self.stages@.len() == self.graph.nodes().len()
        &&& self.consumers@.len() == self.graph.nodes().len()
        &&& reads_back(self.graph.nodes())
        &&& links_ok(self.graph.nodes(), self.links())
        &&& stages_ok(self.graph.nodes(), self.stages@)
        &&& queue_ok(self.stages@, self.ready@)
        &&& self.done == count_done(self.stages@)
    }

    /// Starts an evaluation of `graph`: a node that reads nothing is ready,
    /// every other node waits.
    pub fn new(graph: &'a FheCircuit) -> (s: Scheduler<'a>)
        requires
            graph.wf(),
            outputs_ok(graph.nodes()),
        ensures
            s.wf(),
            s.nodes() == graph.nodes(),
            s.stages().len() == graph.nodes().len(),
            forall|i: int|
                0 <= i < s.stages().len() ==> #[trigger] s.stages()[i] == (if reads(
                    graph.nodes()[i],
                ).len() == 0 {
                    Stage::Ready
                } else {
                    Stage::Waiting
                }),
    {
        let n = graph.len();
        let mut consumers: Vec<Vec<usize>> = Vec::new();
        let mut stages: Vec<Stage> = Vec::new();
        let mut ready: Vec<usize> = Vec::new();
        let mut i: usize = 0;
        while i < n
            invariant
                i <= n,
                consumers@.len() == i,
                forall|k: int| 0 <= k < i ==> (#[trigger] consumers@[k])@.len() == 0,
            decreases n - i,
        {
            consumers.push(Vec::new());
            i += 1;
        }
        i = 0;
        while i < n
            invariant
                graph.wf(),
                outputs_ok(graph.nodes()),
                n == graph.nodes().len(),
                i <= n,
                consumers@.len() == n,
                stages@.len() == i,
                count_done(stages@) == 0,
                forall|a: int, j: int|
                    0 <= a < i && 0 <= j < reads(graph.nodes()[a]).len() ==> listed(
                        consumers@[(#[trigger] reads(graph.nodes()[a])[j]).index as int]@,
                        a,
                    ),
                forall|k: int, e: int|
                    0 <= k < n && 0 <= e < consumers@[k]@.len() ==> #[trigger] consumers@[k]@[e]
                        < i,
                forall|a: int|
                    0 <= a < i ==> #[trigger] stages@[a] == (if reads(graph.nodes()[a]).len()
                        == 0 {
                        Stage::Ready
                    } else {
                        Stage::Waiting
                    }),
                forall|e: int|
                    0 <= e < ready@.len() ==> #[trigger] ready@[e] < i && reads(
                        graph.nodes()[ready@[e] as int],
                    ).len() == 0,
                forall|e1: int, e2: int|
                    0 <= e1 < e2 < ready@.len() ==> #[trigger] ready@[e1] != #[trigger] ready@[e2],
                forall|a: int|
                    0 <= a < i && reads(#[trigger] graph.nodes()[a]).len() == 0 ==> listed(
                        ready@,
                        a,
                    ),
            decreases n - i,
        {
            let node = graph.node(i);
            let count = operand_count(node);
            proof {
                lemma_reads_below(graph, i as int);
                lemma_count_push(
                    stages@,
                    if count == 0 {
                        Stage::Ready
                    } else {
                        Stage::Waiting
                    },
                );
            }
            if count == 0 {
                let ghost before = ready@;
                stages.push(Stage::Ready);
                ready.push(i);
                assert(ready@[before.len() as int] == i);
                assert forall|a: int|
                    0 <= a < i + 1 && reads(#[trigger] graph.nodes()[a]).len() == 0 implies listed(
                    ready@,
                    a,
                ) by {
                    if a < i {
                        let e = choose|e: int| 0 <= e < before.len() && #[trigger] before[e] == a;
                        assert(ready@[e] == a);
                    }
                }
            } else {
                stages.push(Stage::Waiting);
            }
            let mut j: usize = 0;
            while j < count
                invariant
                    graph.wf(),
                    outputs_ok(graph.nodes()),
                    n == graph.nodes().len(),
                    i < n,
                    *node == graph.nodes()[i as int],
                    count == reads(*node).len(),
                    refs_below(reads(*node), i as int),
                    j <= count,
                    consumers@.len() == n,
                    forall|a: int, b: int|
                        0 <= a < i && 0 <= b < reads(graph.nodes()[a]).len() ==> listed(
                            consumers@[(#[trigger] reads(graph.nodes()[a])[b]).index as int]@,
                            a,
                        ),
                    forall|b: int|
                        0 <= b < j ==> listed(
                            consumers@[(#[trigger] reads(*node)[b]).index as int]@,
                            i as int,
                        ),
                    forall|k: int, e: int|
                        0 <= k < n && 0 <= e < consumers@[k]@.len()
                            ==> #[trigger] consumers@[k]@[e] < i + 1,
                decreases count - j,
            {
                let d = operand_at(node, j).index;
                let ghost before = consumers@;
                consumers[d].push(i);
                assert(consumers@[d as int]@[before[d as int]@.len() as int] == i);
                assert forall|a: int, b: int|
                    0 <= a < i && 0 <= b < reads(graph.nodes()[a]).len() implies listed(
                    consumers@[(#[trigger] reads(graph.nodes()[a])[b]).index as int]@,
                    a,
                ) by {
                    let t = reads(graph.nodes()[a])[b].index as int;
                    lemma_reads_below(graph, a);
                    let e = choose|e: int| 0 <= e < before[t]@.len() && #[trigger] before[t]@[e] == a;
                    assert(consumers@[t]@[e] == a);
                }
                assert forall|b: int| 0 <= b < j + 1 implies listed(
                    consumers@[(#[trigger] reads(*node)[b]).index as int]@,
                    i as int,
                ) by {
                    let t = reads(*node)[b].index as int;
                    if b < j && t != d {
                        let e = choose|e: int|
                            0 <= e < before[t]@.len() && #[trigger] before[t]@[e] == i;
                        assert(consumers@[t]@[e] == i);
                    }
                }
                j += 1;
            }
            i += 1;
        }
        let s = Scheduler { graph, consumers, stages, ready, done: 0 };
        proof {
            reveal(reads_back);
            reveal(links_ok);
            reveal(stages_ok);
            reveal(queue_ok);
            assert forall|a: int| 0 <= a < n implies refs_below(
                reads(#[trigger] graph.nodes()[a]),
                a,
            ) by {
                lemma_reads_below(graph, a);
            }
            assert forall|a: int|
                0 <= a < n && #[trigger] s.stages@[a] == Stage::Waiting implies !all_done(
                s.stages@,
                reads(graph.nodes()[a]),
            ) by {
                lemma_reads_below(graph, a);
                let first = reads(graph.nodes()[a])[0];
                assert(s.stages@[first.index as int] != Stage::Done);
            }
        }
        assert(s.links() =~= Seq::new(n as nat, |k: int| consumers@[k]@));
        s
    }


    /// Hands out a ready node, which is then running. `None` when no node is
    /// ready.
    pub fn next(&mut self) -> (r: Option<usize>)
        requires
            old(self).wf(),
        ensures
            final(self).wf(),
            final(self).nodes() == old(self).nodes(),
            match r {
                Some(k) => k < old(self).stages().len() && old(self).stages()[k as int]
                    == Stage::Ready && all_done(
                    old(self).stages(),
                    reads(old(self).nodes()[k as int]),
                ) && final(self).stages() == old(self).stages().update(k as int, Stage::Running),
                None => final(self).stages() == old(self).stages() && forall|i: int|
                    0 <= i < old(self).stages().len() ==> old(self).stages()[i] != Stage::Ready,
            },
            count_done(final(self).stages()) == count_done(old(self).stages()),
    {
        proof {
            if self.ready@.len() > 0 {
                lemma_queue_pop(self.stages@, self.ready@);
                lemma_stages_running(self.graph.nodes(), self.stages@, self.ready@.last() as int);
                lemma_count_update(self.stages@, self.ready@.last() as int, Stage::Running);
            } else {
                lemma_queue_empty(self.stages@, self.ready@);
            }
        }
        match self.ready.pop() {
            None => None,
            Some(k) => {
                self.stages.set(k, Stage::Running);
                assert(self.links() =~= old(self).links());
                Some(k)
            },
        }
    }

    /// Reports node `k`, which is running, complete. Every node that waited
    /// for it alone becomes ready.
    pub fn complete(&mut self, k: usize)
        requires
            old(self).wf(),
            k < old(self).stages().len(),
            old(self).stages()[k as int] == Stage::Running,
        ensures
            final(self).wf(),
            final(self).nodes() == old(self).nodes(),
            final(self).stages() == after_completion(
                old(self).nodes(),
                old(self).stages(),
                k as int,
            ),
            count_done(final(self).stages()) == count_done(old(self).stages()) + 1,
    {
        let graph = self.graph;
        let ghost nodes = graph.nodes();
        let ghost before = self.stages@;
        let ghost links = self.links();
        let ghost marked = before.update(k as int, Stage::Done);
        proof {
            lemma_count_update(before, k as int, Stage::Done);
            lemma_count_bound(marked);
            lemma_queue_mark(before, self.ready@, k as int, Stage::Done);
            lemma_release_start(nodes, links, before, k as int);
        }
        let n = self.stages.len();
        self.stages.set(k, Stage::Done);
        self.done = self.done + 1;
        let m = self.consumers[k].len();
        let mut e: usize = 0;
        while e < m
            invariant
                self.graph == graph,
                self.consumers == old(self).consumers,
                links == self.links(),
                nodes == graph.nodes(),
                n == nodes.len(),
                k < n,
                self.consumers@.len() == n,
                self.stages@.len() == n,
                m == links[k as int].len(),
                e <= m,
                reads_back(nodes),
                links_ok(nodes, links),
                releasing(nodes, marked, self.stages@, links[k as int], e as int),
                queue_ok(self.stages@, self.ready@),
                self.done == count_done(self.stages@),
                self.done == count_done(before) + 1,
            decreases m - e,
        {
            let c = self.consumers[k][e];
            proof {
                lemma_link_bound(nodes, links, k as int, e as int);
            }
            let mut release = false;
            if self.stages[c] == Stage::Waiting {
                let node = graph.node(c);
                let count = operand_count(node);
                proof {
                    lemma_reads_back(nodes, c as int);
                }
                let mut every = true;
                let mut j: usize = 0;
                while j < count
                    invariant
                        j <= count,
                        count == reads(*node).len(),
                        refs_below(reads(*node), c as int),
                        c < n,
                        self.stages@.len() == n,
                        every == (forall|b: int|
                            0 <= b < j ==> self.stages@[(#[trigger] reads(*node)[b]).index as int]
                                == Stage::Done),
                    decreases count - j,
                {
                    let d = operand_at(node, j).index;
                    if self.stages[d] != Stage::Done {
                        every = false;
                    }
                    j += 1;
                }
                proof {
                    lemma_release_same(
                        nodes,
                        marked,
                        self.stages@,
                        links[k as int],
                        e as int,
                        reads(*node),
                    );
                    assert(every == all_done(self.stages@, reads(*node)));
                }
                release = every;
            }
            if release {
                proof {
                    lemma_release_one(nodes, marked, self.stages@, links[k as int], e as int);
                    lemma_queue_push(self.stages@, self.ready@, c);
                    lemma_count_update(self.stages@, c as int, Stage::Ready);
                }
                self.stages.set(c, Stage::Ready);
                self.ready.push(c);
            } else {
                proof {
                    lemma_release_skip(nodes, marked, self.stages@, links[k as int], e as int);
                }
            }
            e += 1;
        }
        proof {
            lemma_release_end(nodes, before, k as int, self.stages@, links[k as int]);
        }
    }

    /// Whether every node is complete.
    pub fn finished(&self) -> (b: bool)
        requires
            self.wf(),
        ensures
            b == (forall|i: int| 0 <= i < self.stages().len() ==> self.stages()[i] == Stage::Done),
    {
        proof {
            if self.done == self.stages@.len() {
                lemma_count_full(self.stages@);
            }
            if forall|i: int| 0 <= i < self.stages@.len() ==> self.stages@[i] == Stage::Done {
                lemma_count_all(self.stages@);
            }
        }
        self.done == self.stages.len()
    }

    /// The stage of node `i`.
    pub fn stage(&self, i: usize) -> (s: Stage)
        requires
            i < self.stages().len(),
        ensures
            s == self.stages()[i as int],
    {
        self.stages[i]
    }

    /// A scheduler has one stage for each node.
    pub proof fn lemma_one_stage_each(&self)
        requires
            self.wf(),
        ensures
            self.stages().len() == self.nodes().len(),
    {
    }

    /// A node that is ready, running or done reads complete nodes only: no
    /// evaluation starts before what it depends on is there.
    pub proof fn lemma_started_after_operands(&self, i: int)
        requires
            self.wf(),
            0 <= i < self.stages().len(),
            self.stages()[i] != Stage::Waiting,
        ensures
            all_done(self.stages(), reads(self.nodes()[i])),
    {
        reveal(stages_ok);
    }

    /// An evaluation cannot stall: when no node is ready and none is running,
    /// every node is complete.
    pub proof fn lemma_idle_is_finished(&self)
        requires
            self.wf(),
            forall|i: int|
                0 <= i < self.stages().len() ==> self.stages()[i] != Stage::Ready
                    && self.stages()[i] != Stage::Running,
        ensures
            forall|i: int| 0 <= i < self.stages().len() ==> self.stages()[i] == Stage::Done,
    {
        lemma_stages_idle(self.graph.nodes(), self.stages@, self.stages@.len() as int);
    }
}

/// Why an evaluation gave no outputs.
#[derive(Clone, Copy, Debug, PartialEq, Eq, Structural)]
pub enum RunError {
    /// The graph or the inputs bound to it are malformed. Nothing was
    /// evaluated.
    Construction(ConstructionError),
    /// The cipher failed on a gate. The whole evaluation is given up.
    EvaluationFailed,
}

/// The plain values of the ciphertexts bound to the input slots.
pub open spec fn plain_inputs<B: Backend>(backend: &B, inputs: Seq<B::Ciphertext>) -> Seq<nat> {
    Seq::new(inputs.len(), |s: int| backend.plain(&inputs[s]))
}

/// What an evaluation of `graph` on `inputs` owes: one ciphertext for each
/// output, which stands for the value of that output.
pub open spec fn evaluates<B: Backend>(
    backend: &B,
    graph: &FheCircuit,
    inputs: Seq<B::Ciphertext>,
    outs: Seq<B::Ciphertext>,
) -> bool {
    &&& outs.len() == graph.outputs().len()
    &&& forall|k: int|
        0 <= k < outs.len() ==> backend.plain(&#[trigger] outs[k]) == graph.value(
            plain_inputs(backend, inputs),
            graph.outputs()[k],
        )
}

fn gather<'v, B: Backend>(
    values: &'v Vec<Option<B::Ciphertext>>,
    args: &Vec<NodeRef>,
) -> (picked: Vec<&'v B::Ciphertext>)
    requires
        forall|j: int|
            0 <= j < args@.len() ==> (#[trigger] args@[j]).index < values@.len()
                && values@[args@[j].index as int] is Some,
    ensures
        picked@.len() == args@.len(),
        forall|j: int|
            0 <= j < args@.len() ==> *#[trigger] picked@[j] == values@[args@[j].index as int]->Some_0,
{
    let mut picked: Vec<&B::Ciphertext> = Vec::new();
    let mut j: usize = 0;
    while j < args.len()
        invariant
            j <= args@.len(),
            picked@.len() == j,
            forall|b: int|
                0 <= b < args@.len() ==> (#[trigger] args@[b]).index < values@.len()
                    && values@[args@[b].index as int] is Some,
            forall|b: int|
                0 <= b < j ==> *#[trigger] picked@[b] == values@[args@[b].index as int]->Some_0,
        decreases args@.len() - j,
    {
        let r = args[j];
        picked.push(values[r.index].as_ref().unwrap());
        j += 1;
    }
    picked
}

/// Evaluates `graph` with `inputs` bound to its input slots, one node after
/// another, and returns the ciphertext of each output.
///
/// Before anything is evaluated the graph is looked over: an output that names
/// no earlier node is a construction error, and so is a number of inputs that
/// differs from the number of slots. After that only the cipher can fail, and
/// its first failure ends the evaluation; with a reliable cipher the
/// evaluation succeeds.
pub fn run_graph_blocking<B: Backend>(
    graph: &FheCircuit,
    inputs: &Vec<B::Ciphertext>,
    backend: &B,
) -> (r: Result<Vec<B::Ciphertext>, RunError>)
    requires
        graph.wf(),
    ensures
        !outputs_ok(graph.nodes()) ==> r is Err && r->Err_0 == RunError::Construction(
            ConstructionError::ForeignNode,
        ),
        outputs_ok(graph.nodes()) && inputs@.len() != graph.slots() ==> r is Err && r->Err_0
            == RunError::Construction(ConstructionError::ArityMismatch),
        outputs_ok(graph.nodes()) && inputs@.len() == graph.slots() ==> match r {
            Ok(outs) => evaluates(backend, graph, inputs@, outs@),
            Err(e) => e == RunError::EvaluationFailed && !backend.reliable(),
        },
{
    if !graph.check_outputs() {
        return Err(RunError::Construction(ConstructionError::ForeignNode));
    }
    if inputs.len() != graph.num_inputs() {
        return Err(RunError::Construction(ConstructionError::ArityMismatch));
    }
    let n = graph.len();
    let ghost nodes = graph.nodes();
    let ghost ins = plain_inputs(backend, inputs@);
    let mut scheduler = Scheduler::new(graph);
    let mut values: Vec<Option<B::Ciphertext>> = Vec::new();
    let mut i: usize = 0;
    while i < n
        invariant
            i <= n,
            values@.len() == i,
            forall|a: int| 0 <= a < i ==> #[trigger] values@[a] is None,
        decreases n - i,
    {
        values.push(None);
        i += 1;
    }
    let mut open = true;
    while open
        invariant
            graph.wf(),
            outputs_ok(nodes),
            nodes == graph.nodes(),
            n == nodes.len(),
            inputs@.len() == graph.slots(),
            ins == plain_inputs(backend, inputs@),
            scheduler.wf(),
            scheduler.nodes() == nodes,
            scheduler.stages().len() == n,
            values@.len() == n,
            forall|a: int| 0 <= a < n ==> scheduler.stages()[a] != Stage::Running,
            forall|a: int|
                0 <= a < n ==> (scheduler.stages()[a] == Stage::Done) == (#[trigger] values@[a] is Some),
            forall|a: int|
                0 <= a < n && #[trigger] values@[a] is Some ==> backend.plain(&values@[a]->Some_0)
                    == node_value(nodes, ins, a),
            !open ==> forall|a: int| 0 <= a < n ==> scheduler.stages()[a] != Stage::Ready,
        decreases n - count_done(scheduler.stages()),
            if open {
                1int
            } else {
                0int
            },
    {
        let ghost stages = scheduler.stages();
        proof {
            lemma_count_bound(stages);
        }
        match scheduler.next() {
            None => {
                open = false;
            },
            Some(k) => {
                let node = graph.node(k);
                proof {
                    lemma_reads_below(graph, k as int);
                    assert(node_ok(nodes[k as int], k as int));
                }
                let produced: Result<B::Ciphertext, GateFailure> = match node {
                    Node::Input(slot) => Ok(backend.duplicate(&inputs[*slot])),
                    Node::Output(source) => {
                        assert(reads(*node)[0] == *source);
                        Ok(backend.duplicate(values[source.index].as_ref().unwrap()))
                    },
                    Node::Gate(op, args) => {
                        assert forall|j: int| 0 <= j < args@.len() implies (
                        #[trigger] args@[j]).index < values@.len()
                            && values@[args@[j].index as int] is Some by {
                            assert(reads(*node)[j] == args@[j]);
                        }
                        let picked = gather::<B>(&values, args);
                        let r = backend.gate(*op, &picked);
                        proof {
                            lemma_gate_value(nodes, ins, k as int);
                            assert(Seq::new(picked@.len(), |j: int| backend.plain(picked@[j]))
                                =~= refs_values(nodes, ins, args@));
                        }
                        r
                    },
                };
                match produced {
                    Err(_) => {
                        return Err(RunError::EvaluationFailed);
                    },
                    Ok(ct) => {
                        assert(backend.plain(&ct) == node_value(nodes, ins, k as int));
                        values.set(k, Some(ct));
                        scheduler.complete(k);
                        proof {
                            lemma_count_bound(scheduler.stages());
                        }
                    },
                }
            },
        }
    }
    proof {
        scheduler.lemma_idle_is_finished();
    }
    let mut outs: Vec<B::Ciphertext> = Vec::new();
    let mut k: usize = 0;
    while k < graph.num_outputs()
        invariant
            graph.wf(),
            nodes == graph.nodes(),
            n == nodes.len(),
            values@.len() == n,
            k <= graph.outputs().len(),
            outs@.len() == k,
            forall|a: int| 0 <= a < n ==> #[trigger] values@[a] is Some,
            forall|a: int|
                0 <= a < n ==> backend.plain(&(#[trigger] values@[a])->Some_0) == node_value(
                    nodes,
                    ins,
                    a,
                ),
            forall|b: int|
                0 <= b < k ==> backend.plain(&#[trigger] outs@[b]) == graph.value(
                    ins,
                    graph.outputs()[b],
                ),
        decreases graph.outputs().len() - k,
    {
        let r = graph.output(k);
        assert(graph.outputs()[k as int].index < nodes.len());
        outs.push(backend.duplicate(values[r.index].as_ref().unwrap()));
        k += 1;
    }
    Ok(outs)
}

} // verus!
