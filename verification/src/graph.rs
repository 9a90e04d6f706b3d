//! Typed topology document for the constrained editor and its structural
//! validation: unique node ids, resolvable cables, matching port kinds, the
//! per-voice/global boundary, and feedback only through a Delay node.
//! Canvas positions and parameter values are kept by the editor beside this
//! document.

use vstd::prelude::*;

verus! {

pub const GRAPH_SCHEMA_VERSION: u32 = 1;

#[derive(Debug, Clone, Copy, PartialEq, Eq, Structural, PartialOrd, Ord, Hash)]
pub struct NodeId(pub u64);

#[derive(Debug, Clone, Copy, PartialEq, Eq, Structural)]
pub enum NodeScope {
    PerVoice,
    Global,
}

#[derive(Debug, Clone, Copy, PartialEq, Eq, Structural)]
pub enum PortKind {
    AudioMono,
    AudioStereo,
    Event,
    Control,
}

#[derive(Debug, Clone, Copy, PartialEq, Eq, Structural)]
pub enum NodeKind {
    Wavetable,
    Exciter,
    Morph,
    ModalBody,
    Filter,
    Drive,
    Delay,
    VoiceBus,
    Reverb,
    Equalizer,
    Limiter,
    Output,
}

#[derive(Debug, Clone)]
pub struct GraphNode {
    pub id: NodeId,
    pub kind: NodeKind,
    pub name: String,
    pub scope: NodeScope,
    pub inputs: Vec<PortKind>,
    pub outputs: Vec<PortKind>,
}

#[derive(Debug, Clone, Copy, PartialEq, Eq, Structural)]
pub struct Connection {
    pub from_node: NodeId,
    pub from_port: usize,
    pub to_node: NodeId,
    pub to_port: usize,
}

#[derive(Debug, Clone)]
pub struct GraphDocument {
    pub schema_version: u32,
    pub name: String,
    pub nodes: Vec<GraphNode>,
    pub connections: Vec<Connection>,
}

#[derive(Debug, Clone, Copy, PartialEq, Eq, Structural)]
pub enum GraphError {
    UnsupportedSchema(u32),
    DuplicateNode(NodeId),
    MissingNode(NodeId),
    MissingOutput(NodeId, usize),
    MissingInput(NodeId, usize),
    PortTypeMismatch { from: PortKind, to: PortKind },
    GlobalAudioIntoVoice,
    MissingVoiceBus,
    FeedbackWithoutDelay,
}

// ---------------------------------------------------------------------------
// Specification of a valid document
// ---------------------------------------------------------------------------

/// Node `j` repeats the id of an earlier node.
pub open spec fn repeats_earlier_id(nodes: Seq<GraphNode>, j: int) -> bool {
    exists|i: int| 0 <= i < j && nodes[i].id == nodes[j].id
}

pub open spec fn is_first_repeat(nodes: Seq<GraphNode>, j: int) -> bool {
    &&& 0 <= j < nodes.len()
    &&& repeats_earlier_id(nodes, j)
    &&& forall|k: int| 0 <= k < j ==> !repeats_earlier_id(nodes, k)
}

pub open spec fn ids_unique(nodes: Seq<GraphNode>) -> bool {
    forall|i: int, j: int| 0 <= i < nodes.len() && 0 <= j < nodes.len() && i != j ==> nodes[i].id != nodes[j].id
}

pub open spec fn has_id(nodes: Seq<GraphNode>, id: NodeId) -> bool {
    exists|i: int| 0 <= i < nodes.len() && nodes[i].id == id
}

pub open spec fn is_index_of(nodes: Seq<GraphNode>, id: NodeId, i: int) -> bool {
    &&& 0 <= i < nodes.len()
    &&& nodes[i].id == id
    &&& forall|k: int| 0 <= k < i ==> nodes[k].id != id
}

/// The position of the node with `id` (its first occurrence).
pub open spec fn index_of(nodes: Seq<GraphNode>, id: NodeId) -> int {
    choose|i: int| is_index_of(nodes, id, i)
}

/// The first rule that cable `c` breaks, in the order the editor checks them.
pub open spec fn connection_error(nodes: Seq<GraphNode>, c: Connection) -> Option<GraphError> {
    if !has_id(nodes, c.from_node) {
        Some(GraphError::MissingNode(c.from_node))
    } else if !has_id(nodes, c.to_node) {
        Some(GraphError::MissingNode(c.to_node))
    } else {
        let s = nodes[index_of(nodes, c.from_node)];
        let t = nodes[index_of(nodes, c.to_node)];
        if c.from_port >= s.outputs@.len() {
            Some(GraphError::MissingOutput(c.from_node, c.from_port))
        } else if c.to_port >= t.inputs@.len() {
            Some(GraphError::MissingInput(c.to_node, c.to_port))
        } else if s.outputs@[c.from_port as int] != t.inputs@[c.to_port as int] {
            Some(
                GraphError::PortTypeMismatch {
                    from: s.outputs@[c.from_port as int],
                    to: t.inputs@[c.to_port as int],
                },
            )
        } else if s.scope == NodeScope::Global && t.scope == NodeScope::PerVoice {
            Some(GraphError::GlobalAudioIntoVoice)
        } else if s.scope == NodeScope::PerVoice && t.scope == NodeScope::Global && t.kind
            != NodeKind::VoiceBus {
            Some(GraphError::MissingVoiceBus)
        } else {
            None
        }
    }
}

pub open spec fn is_first_bad_connection(doc: GraphDocument, c: int) -> bool {
    &&& 0 <= c < doc.connections@.len()
    &&& connection_error(doc.nodes@, doc.connections@[c]) is Some
    &&& forall|k: int| 0 <= k < c ==> connection_error(doc.nodes@, doc.connections@[k]) is None
}

/// Cable `c` carries signal for the feedback analysis: a Delay source breaks
/// the loop, every other source does not.
pub open spec fn is_feedback_edge(doc: GraphDocument, c: int) -> bool {
    doc.nodes@[index_of(doc.nodes@, doc.connections@[c].from_node)].kind != NodeKind::Delay
}

pub open spec fn edge_source(doc: GraphDocument, c: int) -> int {
    index_of(doc.nodes@, doc.connections@[c].from_node)
}

pub open spec fn edge_target(doc: GraphDocument, c: int) -> int {
    index_of(doc.nodes@, doc.connections@[c].to_node)
}

/// `rank` orders the nodes so that every non-Delay cable goes strictly forward.
pub open spec fn is_feedforward_rank(doc: GraphDocument, rank: Seq<int>) -> bool {
    &&& rank.len() == doc.nodes@.len()
    &&& forall|c: int|
        0 <= c < doc.connections@.len() && #[trigger] is_feedback_edge(doc, c) ==> rank[edge_source(doc, c)]
            < rank[edge_target(doc, c)]
}

/// The signal graph, with cables out of Delay nodes removed, has no cycle.
pub open spec fn feedforward(doc: GraphDocument) -> bool {
    exists|rank: Seq<int>| is_feedforward_rank(doc, rank)
}

/// What validation answers for `doc`.
pub open spec fn validation(doc: GraphDocument) -> Result<(), GraphError> {
    if doc.schema_version != GRAPH_SCHEMA_VERSION {
        Err(GraphError::UnsupportedSchema(doc.schema_version))
    } else if exists|j: int| is_first_repeat(doc.nodes@, j) {
        Err(GraphError::DuplicateNode(doc.nodes@[choose|j: int| is_first_repeat(doc.nodes@, j)].id))
    } else if exists|c: int| is_first_bad_connection(doc, c) {
        Err(
            connection_error(
                doc.nodes@,
                doc.connections@[choose|c: int| is_first_bad_connection(doc, c)],
            )->0,
        )
    } else if feedforward(doc) {
        Ok(())
    } else {
        Err(GraphError::FeedbackWithoutDelay)
    }
}

/// `walk` lists feedback cables (cables whose source is not a Delay) that
/// form a loop: each ends at the node the next one leaves, and the last ends
/// at the node the first one leaves.
pub open spec fn is_feedback_cycle(doc: GraphDocument, walk: Seq<int>) -> bool {
    &&& walk.len() >= 1
    &&& forall|k: int|
        0 <= k < walk.len() ==> 0 <= #[trigger] walk[k] < doc.connections@.len() && is_feedback_edge(doc, walk[k])
    &&& forall|k: int| 0 <= k < walk.len() - 1 ==> edge_target(doc, #[trigger] walk[k]) == edge_source(doc, walk[k + 1])
    &&& edge_target(doc, walk.last()) == edge_source(doc, walk[0])
}

pub open spec fn has_feedback_cycle(doc: GraphDocument) -> bool {
    exists|walk: Seq<int>| is_feedback_cycle(doc, walk)
}

/// Along a feedback cycle the rank climbs at every cable.
proof fn lemma_rank_climbs(doc: GraphDocument, rank: Seq<int>, walk: Seq<int>, k: int)
    requires
        is_feedforward_rank(doc, rank),
        is_feedback_cycle(doc, walk),
        0 <= k < walk.len(),
    ensures
        rank[edge_source(doc, walk[0])] < rank[edge_target(doc, walk[k])],
    decreases k,
{
    assert(0 <= walk[k] < doc.connections@.len() && is_feedback_edge(doc, walk[k]));
    if k > 0 {
        lemma_rank_climbs(doc, rank, walk, k - 1);
        assert(edge_target(doc, walk[k - 1]) == edge_source(doc, walk[k]));
    }
}

/// A ranking that every feedback cable climbs rules out a loop of feedback
/// cables: a document with such a ranking has no feedback cycle.
pub proof fn law_feedforward_has_no_cycle(doc: GraphDocument)
    requires
        feedforward(doc),
    ensures
        !has_feedback_cycle(doc),
{
    let rank = choose|rank: Seq<int>| is_feedforward_rank(doc, rank);
    if has_feedback_cycle(doc) {
        let walk = choose|walk: Seq<int>| is_feedback_cycle(doc, walk);
        lemma_rank_climbs(doc, rank, walk, walk.len() - 1);
    }
}

/// `path` is a run of one or more feedback cables that leaves node `a` and
/// arrives at node `b`, each cable ending where the next one leaves.
pub open spec fn is_feedback_path(doc: GraphDocument, path: Seq<int>, a: int, b: int) -> bool {
    &&& path.len() >= 1
    &&& forall|k: int|
        0 <= k < path.len() ==> 0 <= #[trigger] path[k] < doc.connections@.len() && is_feedback_edge(doc, path[k])
    &&& forall|k: int| 0 <= k < path.len() - 1 ==> edge_target(doc, #[trigger] path[k]) == edge_source(doc, path[k + 1])
    &&& edge_source(doc, path[0]) == a
    &&& edge_target(doc, path.last()) == b
}

/// Signal from node `a` reaches node `b` over feedback cables.
pub open spec fn feeds(doc: GraphDocument, a: int, b: int) -> bool {
    exists|path: Seq<int>| is_feedback_path(doc, path, a, b)
}

/// The nodes whose signal reaches `v` over feedback cables.
pub open spec fn feeders(doc: GraphDocument, v: int) -> Set<int> {
    Set::new(|u: int| 0 <= u < doc.nodes@.len() && feeds(doc, u, v))
}

/// Every cable leaves and enters a node of the document.
pub open spec fn cables_resolve(doc: GraphDocument) -> bool {
    forall|c: int|
        0 <= c < doc.connections@.len() ==> 0 <= #[trigger] edge_source(doc, c) < doc.nodes@.len() && 0 <= edge_target(
            doc,
            c,
        ) < doc.nodes@.len()
}

/// Without feedback cycles, a feedback cable's target has strictly more
/// feeders than its source.
proof fn lemma_feeders_grow(doc: GraphDocument, c: int)
    requires
        cables_resolve(doc),
        !has_feedback_cycle(doc),
        0 <= c < doc.connections@.len(),
        is_feedback_edge(doc, c),
    ensures
        feeders(doc, edge_source(doc, c)).len() < feeders(doc, edge_target(doc, c)).len(),
{
    let n = doc.nodes@.len() as int;
    let u = edge_source(doc, c);
    let v = edge_target(doc, c);
    let fu = feeders(doc, u);
    let fv = feeders(doc, v);
    vstd::set_lib::lemma_int_range(0, n);
    assert(fv.subset_of(vstd::set_lib::set_int_range(0, n)));
    vstd::set_lib::lemma_len_subset(fv, vstd::set_lib::set_int_range(0, n));
    assert forall|w: int| fu.insert(u).contains(w) implies fv.contains(w) by {
        if w == u {
            assert(is_feedback_path(doc, seq![c], u, v));
        } else {
            let p = choose|p: Seq<int>| is_feedback_path(doc, p, w, u);
            let q = p.push(c);
            assert forall|k: int| 0 <= k < q.len() - 1 implies edge_target(doc, #[trigger] q[k]) == edge_source(
                doc,
                q[k + 1],
            ) by {
                if k < p.len() - 1 {
                    assert(q[k] == p[k] && q[k + 1] == p[k + 1]);
                } else {
                    assert(q[k] == p.last());
                }
            }
            assert forall|k: int| 0 <= k < q.len() implies 0 <= #[trigger] q[k] < doc.connections@.len()
                && is_feedback_edge(doc, q[k]) by {
                if k < p.len() {
                    assert(q[k] == p[k]);
                }
            }
            assert(is_feedback_path(doc, q, w, v));
        }
    }
    vstd::set_lib::lemma_len_subset(fu.insert(u), fv);
    if fu.contains(u) {
        let p = choose|p: Seq<int>| is_feedback_path(doc, p, u, u);
        assert(is_feedback_cycle(doc, p));
    }
    vstd::set_lib::lemma_len_subset(fu, fu.insert(u));
    assert(fu.insert(u).len() == fu.len() + 1);
}

/// Where every cable resolves, the cables whose source is not a Delay form
/// no cycle exactly when some ranking of the nodes is climbed by each of
/// them: the feedback rule of validation is acyclicity.
pub proof fn law_feedforward_iff_acyclic(doc: GraphDocument)
    requires
        cables_resolve(doc),
    ensures
        feedforward(doc) <==> !has_feedback_cycle(doc),
{
    if feedforward(doc) {
        law_feedforward_has_no_cycle(doc);
    } else if !has_feedback_cycle(doc) {
        let rank = Seq::new(doc.nodes@.len(), |v: int| feeders(doc, v).len() as int);
        assert forall|c: int| 0 <= c < doc.connections@.len() && #[trigger] is_feedback_edge(doc, c) implies rank[edge_source(
            doc,
            c,
        )] < rank[edge_target(doc, c)] by {
            lemma_feeders_grow(doc, c);
        }
        assert(is_feedforward_rank(doc, rank));
    }
}

/// Cable `c` leaves an existing output and enters an existing input of the
/// same kind, does not run from a global node into a per-voice node, and
/// ends at a Voice Bus when it runs from a per-voice node to a global one.
pub open spec fn cable_ok(nodes: Seq<GraphNode>, c: Connection) -> bool {
    &&& has_id(nodes, c.from_node)
    &&& has_id(nodes, c.to_node)
    &&& {
        let s = nodes[index_of(nodes, c.from_node)];
        let t = nodes[index_of(nodes, c.to_node)];
        &&& c.from_port < s.outputs@.len()
        &&& c.to_port < t.inputs@.len()
        &&& s.outputs@[c.from_port as int] == t.inputs@[c.to_port as int]
        &&& !(s.scope == NodeScope::Global && t.scope == NodeScope::PerVoice)
        &&& (s.scope == NodeScope::PerVoice && t.scope == NodeScope::Global ==> t.kind == NodeKind::VoiceBus)
    }
}

proof fn lemma_first_repeat_exists(nodes: Seq<GraphNode>, j: int)
    requires
        0 <= j < nodes.len(),
        repeats_earlier_id(nodes, j),
    ensures
        exists|k: int| is_first_repeat(nodes, k),
    decreases j,
{
    if exists|k: int| 0 <= k < j && repeats_earlier_id(nodes, k) {
        let k = choose|k: int| 0 <= k < j && repeats_earlier_id(nodes, k);
        lemma_first_repeat_exists(nodes, k);
    } else {
        assert(is_first_repeat(nodes, j));
    }
}

proof fn lemma_first_bad_exists(doc: GraphDocument, c: int)
    requires
        0 <= c < doc.connections@.len(),
        connection_error(doc.nodes@, doc.connections@[c]) is Some,
    ensures
        exists|k: int| is_first_bad_connection(doc, k),
    decreases c,
{
    if exists|k: int| 0 <= k < c && connection_error(doc.nodes@, doc.connections@[k]) is Some {
        let k = choose|k: int| 0 <= k < c && connection_error(doc.nodes@, doc.connections@[k]) is Some;
        lemma_first_bad_exists(doc, k);
    } else {
        assert(is_first_bad_connection(doc, c));
    }
}

/// A document validates exactly when its schema version is the supported
/// one, its node ids are distinct, every cable is sound (`cable_ok`), and
/// the cables whose source is not a Delay form no cycle.
pub proof fn law_validation_ok_iff(doc: GraphDocument)
    ensures
        validation(doc) is Ok <==> {
            &&& doc.schema_version == GRAPH_SCHEMA_VERSION
            &&& ids_unique(doc.nodes@)
            &&& forall|c: int| 0 <= c < doc.connections@.len() ==> cable_ok(doc.nodes@, #[trigger] doc.connections@[c])
            &&& !has_feedback_cycle(doc)
        },
{
    let nodes = doc.nodes@;
    // Distinct ids exactly when no node repeats an earlier id.
    if !ids_unique(nodes) {
        let (i, j) = choose|i: int, j: int|
            0 <= i < nodes.len() && 0 <= j < nodes.len() && i != j && nodes[i].id == nodes[j].id;
        if i < j {
            assert(repeats_earlier_id(nodes, j));
            lemma_first_repeat_exists(nodes, j);
        } else {
            assert(repeats_earlier_id(nodes, i));
            lemma_first_repeat_exists(nodes, i);
        }
    } else {
        assert forall|j: int| !is_first_repeat(nodes, j) by {
            if is_first_repeat(nodes, j) {
                let i = choose|i: int| 0 <= i < j && nodes[i].id == nodes[j].id;
            }
        }
    }
    // A cable is sound exactly when it breaks no rule.
    assert forall|c: int| 0 <= c < doc.connections@.len() implies (cable_ok(nodes, #[trigger] doc.connections@[c])
        <==> connection_error(nodes, doc.connections@[c]) is None) by {}
    if exists|c: int| 0 <= c < doc.connections@.len() && !cable_ok(nodes, #[trigger] doc.connections@[c]) {
        let c = choose|c: int| 0 <= c < doc.connections@.len() && !cable_ok(nodes, #[trigger] doc.connections@[c]);
        lemma_first_bad_exists(doc, c);
    } else {
        assert forall|k: int| !is_first_bad_connection(doc, k) by {}
        assert forall|c: int| 0 <= c < doc.connections@.len() implies 0 <= #[trigger] edge_source(doc, c)
            < nodes.len() && 0 <= edge_target(doc, c) < nodes.len() by {
            assert(cable_ok(nodes, doc.connections@[c]));
            lemma_index_exists(nodes, doc.connections@[c].from_node);
            lemma_index_exists(nodes, doc.connections@[c].to_node);
        }
        law_feedforward_iff_acyclic(doc);
    }
}

/// A present id has a first position.
proof fn lemma_index_exists(nodes: Seq<GraphNode>, id: NodeId)
    requires
        has_id(nodes, id),
    ensures
        0 <= index_of(nodes, id) < nodes.len(),
        nodes[index_of(nodes, id)].id == id,
{
    let i = choose|i: int| 0 <= i < nodes.len() && nodes[i].id == id;
    lemma_first_index(nodes, id, i);
    let k = choose|k: int| is_index_of(nodes, id, k);
    lemma_index_of(nodes, id, k);
}

proof fn lemma_first_index(nodes: Seq<GraphNode>, id: NodeId, i: int)
    requires
        0 <= i < nodes.len(),
        nodes[i].id == id,
    ensures
        exists|k: int| is_index_of(nodes, id, k),
    decreases i,
{
    if exists|k: int| 0 <= k < i && nodes[k].id == id {
        let k = choose|k: int| 0 <= k < i && nodes[k].id == id;
        lemma_first_index(nodes, id, k);
    } else {
        assert(is_index_of(nodes, id, i));
    }
}

/// Among `n + 1` values below `n`, two are equal.
proof fn lemma_pigeonhole(s: Seq<int>, n: int) -> (r: (int, int))
    requires
        n >= 0,
        s.len() > n,
        forall|k: int| 0 <= k < s.len() ==> 0 <= #[trigger] s[k] < n,
    ensures
        0 <= r.0 < r.1 < s.len(),
        s[r.0] == s[r.1],
    decreases n,
{
    let last = s.len() - 1;
    assert(0 <= s[last] < n);
    if exists|i: int| 0 <= i < last && s[i] == s[last] {
        let i = choose|i: int| 0 <= i < last && s[i] == s[last];
        (i, last)
    } else {
        let a = s[last];
        let t = Seq::new(last as nat, |k: int| if s[k] < a { s[k] } else { s[k] - 1 });
        assert forall|k: int| 0 <= k < t.len() implies 0 <= #[trigger] t[k] < n - 1 by {
            assert(0 <= s[k] < n);
            assert(s[k] != a);
        }
        let (i, j) = lemma_pigeonhole(t, n - 1);
        assert(s[i] != a && s[j] != a);
        (i, j)
    }
}

/// Every node not yet `done` has a feedback cable in from another node not
/// yet `done`.
#[verifier::opaque]
pub open spec fn stalled(doc: GraphDocument, done: Seq<bool>) -> bool {
    &&& done.len() == doc.nodes@.len()
    &&& forall|c: int|
        0 <= c < doc.connections@.len() ==> 0 <= #[trigger] edge_source(doc, c) < doc.nodes@.len()
            && 0 <= edge_target(doc, c) < doc.nodes@.len()
    &&& forall|x: int|
        0 <= x < done.len() && !done[x] ==> exists|c: int|
            0 <= c < doc.connections@.len() && is_feedback_edge(doc, c) && #[trigger] edge_target(doc, c) == x
                && !done[edge_source(doc, c)]
}

/// Kahn's algorithm stops with every remaining node still waiting on a
/// feedback cable from a remaining node.
proof fn lemma_stalled_from_pending(doc: GraphDocument, done: Seq<bool>, ends: Seq<(usize, usize)>, indegree: Seq<usize>)
    requires
        ends_ok(doc, ends),
        done.len() == doc.nodes@.len(),
        indegree.len() == doc.nodes@.len(),
        forall|x: int| 0 <= x < done.len() ==> indegree[x] == pending_into(doc, done, x, 0, ends.len() as int),
        forall|x: int| 0 <= x < done.len() && !done[x] ==> indegree[x] != 0,
    ensures
        stalled(doc, done),
{
    reveal(stalled);
    assert forall|c: int| 0 <= c < doc.connections@.len() implies 0 <= #[trigger] edge_source(doc, c)
        < doc.nodes@.len() && 0 <= edge_target(doc, c) < doc.nodes@.len() by {
        lemma_ends_at(doc, ends, c);
    }
    assert forall|x: int| 0 <= x < done.len() && !done[x] implies exists|c: int|
        0 <= c < doc.connections@.len() && is_feedback_edge(doc, c) && #[trigger] edge_target(doc, c) == x
            && !done[edge_source(doc, c)] by {
        let c = lemma_pending_witness(doc, done, x, 0, ends.len() as int);
    }
}

/// Walking back `len` feedback cables from `v` through nodes not yet `done`.
proof fn lemma_back_walk(doc: GraphDocument, done: Seq<bool>, v: int, len: nat) -> (r: (Seq<int>, Seq<int>))
    requires
        stalled(doc, done),
        0 <= v < done.len(),
        !done[v],
    ensures
        r.0.len() == len + 1,
        r.1.len() == len,
        r.0[0] == v,
        forall|k: int| 0 <= k <= len ==> 0 <= #[trigger] r.0[k] < done.len() && !done[r.0[k]],
        forall|k: int|
            0 <= k < len ==> 0 <= #[trigger] r.1[k] < doc.connections@.len() && is_feedback_edge(doc, r.1[k])
                && edge_target(doc, r.1[k]) == r.0[k] && edge_source(doc, r.1[k]) == r.0[k + 1],
    decreases len,
{
    reveal(stalled);
    if len == 0 {
        (seq![v], Seq::<int>::empty())
    } else {
        let (ns, es) = lemma_back_walk(doc, done, v, (len - 1) as nat);
        let u = ns[len - 1];
        assert(0 <= u < done.len() && !done[u]);
        let c = choose|c: int|
            0 <= c < doc.connections@.len() && is_feedback_edge(doc, c) && #[trigger] edge_target(doc, c) == u
                && !done[edge_source(doc, c)];
        assert(0 <= edge_source(doc, c) < doc.nodes@.len());
        let ns2 = ns.push(edge_source(doc, c));
        let es2 = es.push(c);
        assert forall|k: int| 0 <= k <= len implies 0 <= #[trigger] ns2[k] < done.len() && !done[ns2[k]] by {
            if k < len {
                assert(ns2[k] == ns[k]);
            }
        }
        assert forall|k: int| 0 <= k < len implies 0 <= #[trigger] es2[k] < doc.connections@.len()
            && is_feedback_edge(doc, es2[k]) && edge_target(doc, es2[k]) == ns2[k] && edge_source(doc, es2[k])
            == ns2[k + 1] by {
            if k < len - 1 {
                assert(es2[k] == es[k]);
                assert(ns2[k] == ns[k] && ns2[k + 1] == ns[k + 1]);
            }
        }
        (ns2, es2)
    }
}

/// A stalled ordering with a node left over exposes a feedback cycle.
proof fn lemma_stall_has_cycle(doc: GraphDocument, done: Seq<bool>, v: int)
    requires
        stalled(doc, done),
        0 <= v < done.len(),
        !done[v],
    ensures
        has_feedback_cycle(doc),
{
    let n = done.len() as int;
    let (ns, es) = lemma_back_walk(doc, done, v, n as nat);
    assert forall|k: int| 0 <= k < ns.len() implies 0 <= #[trigger] ns[k] < n by {}
    let (i, j) = lemma_pigeonhole(ns, n);
    let walk = Seq::new((j - i) as nat, |k: int| es[j - 1 - k]);
    assert forall|k: int| 0 <= k < walk.len() implies 0 <= #[trigger] walk[k] < doc.connections@.len()
        && is_feedback_edge(doc, walk[k]) by {
        assert(walk[k] == es[j - 1 - k]);
    }
    assert forall|k: int| 0 <= k < walk.len() - 1 implies edge_target(doc, #[trigger] walk[k]) == edge_source(
        doc,
        walk[k + 1],
    ) by {
        assert(walk[k] == es[j - 1 - k]);
        assert(walk[k + 1] == es[j - 2 - k]);
    }
    assert(walk.last() == es[i]);
    assert(walk[0] == es[j - 1]);
    assert(is_feedback_cycle(doc, walk));
}

// ---------------------------------------------------------------------------
// Counting lemmas for the feedback analysis
// ---------------------------------------------------------------------------

/// Feedback cables among `c in [a, b)` that enter node `v` from a node that
/// is not yet `done`.
pub open spec fn pending_into(doc: GraphDocument, done: Seq<bool>, v: int, a: int, b: int) -> nat
    decreases b - a,
{
    if a >= b {
        0
    } else {
        (if is_feedback_edge(doc, a) && edge_target(doc, a) == v && !done[edge_source(doc, a)] {
            1nat
        } else {
            0nat
        }) + pending_into(doc, done, v, a + 1, b)
    }
}

proof fn lemma_pending_split(doc: GraphDocument, done: Seq<bool>, v: int, a: int, m: int, b: int)
    requires
        a <= m <= b,
    ensures
        pending_into(doc, done, v, a, b) == pending_into(doc, done, v, a, m) + pending_into(
            doc,
            done,
            v,
            m,
            b,
        ),
    decreases m - a,
{
    if a < m {
        lemma_pending_split(doc, done, v, a + 1, m, b);
    }
}

/// A positive count has a witness cable.
proof fn lemma_pending_witness(doc: GraphDocument, done: Seq<bool>, v: int, a: int, b: int) -> (c: int)
    requires
        pending_into(doc, done, v, a, b) > 0,
    ensures
        a <= c < b,
        is_feedback_edge(doc, c),
        edge_target(doc, c) == v,
        !done[edge_source(doc, c)],
    decreases b - a,
{
    if is_feedback_edge(doc, a) && edge_target(doc, a) == v && !done[edge_source(doc, a)] {
        a
    } else {
        lemma_pending_witness(doc, done, v, a + 1, b)
    }
}

/// Counts agree when `done` agrees on every source that matters.
proof fn lemma_pending_same(
    doc: GraphDocument,
    d1: Seq<bool>,
    d2: Seq<bool>,
    v: int,
    a: int,
    b: int,
)
    requires
        forall|c: int|
            a <= c < b && is_feedback_edge(doc, c) && edge_target(doc, c) == v ==> d1[edge_source(doc, c)]
                == d2[edge_source(doc, c)],
    ensures
        pending_into(doc, d1, v, a, b) == pending_into(doc, d2, v, a, b),
    decreases b - a,
{
    if a < b {
        lemma_pending_same(doc, d1, d2, v, a + 1, b);
    }
}

pub open spec fn count_true(s: Seq<bool>) -> nat
    decreases s.len(),
{
    if s.len() == 0 {
        0
    } else {
        count_true(s.drop_last()) + if s.last() {
            1nat
        } else {
            0nat
        }
    }
}

proof fn lemma_count_true_bound(s: Seq<bool>)
    ensures
        count_true(s) <= s.len(),
        count_true(s) == s.len() ==> forall|i: int| 0 <= i < s.len() ==> s[i],
    decreases s.len(),
{
    if s.len() > 0 {
        lemma_count_true_bound(s.drop_last());
        if count_true(s) == s.len() {
            assert forall|i: int| 0 <= i < s.len() implies s[i] by {
                if i < s.len() - 1 {
                    assert(s.drop_last()[i] == s[i]);
                }
            }
        }
    }
}

proof fn lemma_count_true_set(s: Seq<bool>, u: int)
    requires
        0 <= u < s.len(),
        !s[u],
    ensures
        count_true(s.update(u, true)) == count_true(s) + 1,
    decreases s.len(),
{
    let t = s.update(u, true);
    if u == s.len() - 1 {
        assert(t.drop_last() == s.drop_last());
    } else {
        assert(t.drop_last() == s.drop_last().update(u, true));
        lemma_count_true_set(s.drop_last(), u);
    }
}

/// Among the indices in `[0, n)` that are not `done`, one has the least rank.
proof fn lemma_min_rank_pending(done: Seq<bool>, rank: Seq<int>, n: int) -> (w: int)
    requires
        0 < n <= done.len(),
        n <= rank.len(),
        exists|x: int| 0 <= x < n && !done[x],
    ensures
        0 <= w < n,
        !done[w],
        forall|x: int| 0 <= x < n && !done[x] ==> rank[w] <= rank[x],
    decreases n,
{
    if n == 1 {
        0
    } else if exists|x: int| 0 <= x < n - 1 && !done[x] {
        let w0 = lemma_min_rank_pending(done, rank, n - 1);
        if !done[n - 1] && rank[n - 1] < rank[w0] {
            n - 1
        } else {
            w0
        }
    } else {
        n - 1
    }
}

// ---------------------------------------------------------------------------
// Validation
// ---------------------------------------------------------------------------

fn find_node(nodes: &Vec<GraphNode>, id: NodeId) -> (r: Option<usize>)
    ensures
        match r {
            Some(i) => is_index_of(nodes@, id, i as int),
            None => !has_id(nodes@, id),
        },
{
    let mut i: usize = 0;
    while i < nodes.len()
        invariant
            i <= nodes.len(),
            forall|k: int| 0 <= k < i ==> nodes@[k].id != id,
        decreases nodes.len() - i,
    {
        if nodes[i].id == id {
            return Some(i);
        }
        i = i + 1;
    }
    None
}

proof fn lemma_index_of(nodes: Seq<GraphNode>, id: NodeId, i: int)
    requires
        is_index_of(nodes, id, i),
    ensures
        index_of(nodes, id) == i,
        has_id(nodes, id),
{
    let j = index_of(nodes, id);
    assert(is_index_of(nodes, id, j));
    if j < i {
        assert(nodes[j].id != id);
    } else if i < j {
        assert(nodes[i].id != id);
    }
}

impl GraphDocument {
    /// Checks the document against every structural rule, in order: schema
    /// version, unique node ids, then each cable in turn, then feedback.
    pub fn validate(&self) -> (r: Result<(), GraphError>)
        ensures
            r == validation(*self),
            r is Ok ==> !has_feedback_cycle(*self),
            r == Err::<(), GraphError>(GraphError::FeedbackWithoutDelay) ==> has_feedback_cycle(*self),
    {
        if self.schema_version != GRAPH_SCHEMA_VERSION {
            return Err(GraphError::UnsupportedSchema(self.schema_version));
        }
        let nodes = &self.nodes;
        // Unique ids.
        let mut j: usize = 0;
        while j < nodes.len()
            invariant
                j <= nodes.len(),
                nodes@ == self.nodes@,
                self.schema_version == GRAPH_SCHEMA_VERSION,
                forall|a: int, b: int| 0 <= a < j && 0 <= b < j && a != b ==> nodes@[a].id != nodes@[b].id,
            decreases nodes.len() - j,
        {
            let mut i: usize = 0;
            while i < j
                invariant
                    i <= j < nodes.len(),
                    nodes@ == self.nodes@,
                    self.schema_version == GRAPH_SCHEMA_VERSION,
                    forall|a: int, b: int| 0 <= a < j && 0 <= b < j && a != b ==> nodes@[a].id != nodes@[b].id,
                    forall|k: int| 0 <= k < i ==> nodes@[k].id != nodes@[j as int].id,
                decreases j - i,
            {
                if nodes[i].id == nodes[j].id {
                    proof {
                        assert(repeats_earlier_id(nodes@, j as int));
                        assert forall|k: int| 0 <= k < j implies !repeats_earlier_id(nodes@, k) by {
                            if repeats_earlier_id(nodes@, k) {
                                let a = choose|a: int| 0 <= a < k && nodes@[a].id == nodes@[k].id;
                                assert(nodes@[a].id == nodes@[k].id);
                            }
                        }
                        assert(is_first_repeat(nodes@, j as int));
                        let w = choose|w: int| is_first_repeat(nodes@, w);
                        if w < j {
                            assert(!repeats_earlier_id(nodes@, w));
                        } else if j < w {
                            assert(!repeats_earlier_id(nodes@, j as int));
                        }
                    }
                    return Err(GraphError::DuplicateNode(nodes[j].id));
                }
                i = i + 1;
            }
            j = j + 1;
        }
        proof {
            assert forall|w: int| !is_first_repeat(nodes@, w) by {
                if is_first_repeat(nodes@, w) {
                    let a = choose|a: int| 0 <= a < w && nodes@[a].id == nodes@[w].id;
                    assert(nodes@[a].id == nodes@[w].id);
                }
            }
        }
        // Each cable in turn; remember its endpoints as node positions.
        let conns = &self.connections;
        let mut ends: Vec<(usize, usize)> = Vec::new();
        let mut c: usize = 0;
        while c < conns.len()
            invariant
                c <= conns.len(),
                conns@ == self.connections@,
                nodes@ == self.nodes@,
                self.schema_version == GRAPH_SCHEMA_VERSION,
                forall|w: int| !is_first_repeat(self.nodes@, w),
                ids_unique(nodes@),
                ends@.len() == c,
                forall|k: int| 0 <= k < c ==> connection_error(nodes@, conns@[k]) is None,
                forall|k: int|
                    0 <= k < c ==> #[trigger] ends@[k].0 == index_of(nodes@, conns@[k].from_node)
                        && ends@[k].1 == index_of(nodes@, conns@[k].to_node) && has_id(
                        nodes@,
                        conns@[k].from_node,
                    ) && has_id(nodes@, conns@[k].to_node) && ends@[k].0 < nodes@.len() && ends@[k].1
                        < nodes@.len(),
            decreases conns.len() - c,
        {
            let conn = conns[c];
            let ghost first_bad = is_first_bad_connection(*self, c as int);
            let si = match find_node(nodes, conn.from_node) {
                Some(i) => i,
                None => {
                    proof { self.lemma_first_bad(c as int); }
                    return Err(GraphError::MissingNode(conn.from_node));
                },
            };
            proof { lemma_index_of(nodes@, conn.from_node, si as int); }
            let ti = match find_node(nodes, conn.to_node) {
                Some(i) => i,
                None => {
                    proof { self.lemma_first_bad(c as int); }
                    return Err(GraphError::MissingNode(conn.to_node));
                },
            };
            proof { lemma_index_of(nodes@, conn.to_node, ti as int); }
            let source = &nodes[si];
            let target = &nodes[ti];
            if conn.from_port >= source.outputs.len() {
                proof { self.lemma_first_bad(c as int); }
                return Err(GraphError::MissingOutput(conn.from_node, conn.from_port));
            }
            if conn.to_port >= target.inputs.len() {
                proof { self.lemma_first_bad(c as int); }
                return Err(GraphError::MissingInput(conn.to_node, conn.to_port));
            }
            let source_kind = source.outputs[conn.from_port];
            let target_kind = target.inputs[conn.to_port];
            if source_kind != target_kind {
                proof { self.lemma_first_bad(c as int); }
                return Err(GraphError::PortTypeMismatch { from: source_kind, to: target_kind });
            }
            if source.scope == NodeScope::Global && target.scope == NodeScope::PerVoice {
                proof { self.lemma_first_bad(c as int); }
                return Err(GraphError::GlobalAudioIntoVoice);
            }
            if source.scope == NodeScope::PerVoice && target.scope == NodeScope::Global && target.kind
                != NodeKind::VoiceBus {
                proof { self.lemma_first_bad(c as int); }
                return Err(GraphError::MissingVoiceBus);
            }
            ends.push((si, ti));
            c = c + 1;
        }
        proof {
            assert forall|w: int| !is_first_bad_connection(*self, w) by {}
        }
        proof {
            assert forall|q: int| 0 <= q < ends@.len() implies #[trigger] ends@[q].0 == edge_source(*self, q)
                && ends@[q].1 == edge_target(*self, q) && ends@[q].0 < nodes@.len() && ends@[q].1
                < nodes@.len() by {}
        }
        if self.feedforward_check(&ends) {
            Ok(())
        } else {
            Err(GraphError::FeedbackWithoutDelay)
        }
    }

    proof fn lemma_first_bad(&self, c: int)
        requires
            0 <= c < self.connections@.len(),
            connection_error(self.nodes@, self.connections@[c]) is Some,
            forall|k: int| 0 <= k < c ==> connection_error(self.nodes@, self.connections@[k]) is None,
        ensures
            exists|w: int| is_first_bad_connection(*self, w),
            (choose|w: int| is_first_bad_connection(*self, w)) == c,
    {
        assert(is_first_bad_connection(*self, c));
        let w = choose|w: int| is_first_bad_connection(*self, w);
        if w < c {
            assert(connection_error(self.nodes@, self.connections@[w]) is None);
        } else if c < w {
            assert(connection_error(self.nodes@, self.connections@[c]) is None);
        }
    }

    /// Kahn's algorithm over the feedback cables; true when every node can be
    /// ordered.
    fn feedforward_check(&self, ends: &Vec<(usize, usize)>) -> (ok: bool)
        requires
            ends_ok(*self, ends@),
        ensures
            ok == feedforward(*self),
            ok == !has_feedback_cycle(*self),
    {
        let ghost doc = *self;
        let n = self.nodes.len();
        let m = ends.len();
        // Which cables are feedback cables.
        let mut live: Vec<bool> = Vec::new();
        let mut k: usize = 0;
        while k < m
            invariant
                k <= m,
                m == ends@.len(),
                n == doc.nodes@.len(),
                doc == *self,
                ends_ok(doc, ends@),
                live@.len() == k,
                forall|q: int| 0 <= q < k ==> live@[q] == is_feedback_edge(doc, q),
            decreases m - k,
        {
            proof { lemma_ends_at(doc, ends@, k as int); }
            let src = ends[k].0;
            live.push(match self.nodes[src].kind {
                NodeKind::Delay => false,
                _ => true,
            });
            k = k + 1;
        }
        let ghost done0: Seq<bool> = Seq::new(n as nat, |i: int| false);
        // In-degrees.
        let mut indegree: Vec<usize> = Vec::new();
        let mut v: usize = 0;
        while v < n
            invariant
                v <= n,
                indegree@.len() == v,
                forall|x: int| 0 <= x < v ==> indegree@[x] == 0,
            decreases n - v,
        {
            indegree.push(0);
            v = v + 1;
        }
        let mut k: usize = 0;
        while k < m
            invariant
                k <= m,
                m == ends@.len(),
                n == doc.nodes@.len(),
                doc == *self,
                ends_ok(doc, ends@),
                live@.len() == m,
                done0.len() == n,
                forall|i: int| 0 <= i < n ==> !done0[i],
                forall|q: int| 0 <= q < m ==> live@[q] == is_feedback_edge(doc, q),
                indegree@.len() == n,
                forall|x: int| 0 <= x < n ==> indegree@[x] == pending_into(doc, done0, x, 0, k as int),
            decreases m - k,
        {
            proof {
                lemma_ends_at(doc, ends@, k as int);
                assert forall|x: int| 0 <= x < n implies #[trigger] pending_into(doc, done0, x, 0, k + 1)
                    == pending_into(doc, done0, x, 0, k as int) + pending_step(doc, done0, x, k as int) by {
                    lemma_pending_last(doc, done0, x, 0, k as int);
                }
            }
            if live[k] {
                let t = ends[k].1;
                proof {
                    lemma_pending_bound(doc, done0, t as int, 0, k as int);
                }
                indegree.set(t, indegree[t] + 1);
            }
            k = k + 1;
        }
        // Nodes without pending input.
        let mut ready: Vec<usize> = Vec::new();
        let mut v: usize = 0;
        while v < n
            invariant
                v <= n,
                indegree@.len() == n,
                forall|q: int| 0 <= q < ready@.len() ==> ready@[q] < v && indegree@[ready@[q] as int] == 0,
                forall|a: int, b: int| 0 <= a < b < ready@.len() ==> ready@[a] != ready@[b],
                forall|x: int| 0 <= x < v && indegree@[x] == 0 ==> ready@.contains(x as usize),
            decreases n - v,
        {
            if indegree[v] == 0 {
                let ghost before = ready@;
                ready.push(v);
                proof {
                    assert(ready@[ready@.len() - 1] == v);
                    assert forall|x: int| 0 <= x < v + 1 && indegree@[x] == 0 implies ready@.contains(
                        x as usize,
                    ) by {
                        if x < v {
                            let q = choose|q: int| 0 <= q < before.len() && before[q] == x as usize;
                            assert(ready@[q] == x as usize);
                        }
                    }
                }
            }
            v = v + 1;
        }
        let ghost mut done: Seq<bool> = done0;
        let ghost mut rank: Seq<int> = Seq::new(n as nat, |i: int| 0);
        let mut visited: usize = 0;
        proof {
            lemma_count_true_none(done0);
            assert forall|c: int| 0 <= c < m && is_feedback_edge(doc, c) && done[edge_target(doc, c)] implies done[edge_source(doc, c)]
                && rank[edge_source(doc, c)] < rank[edge_target(doc, c)] by {
                lemma_ends_at(doc, ends@, c);
            }
        }
        while ready.len() > 0
            invariant
                m == ends@.len(),
                n == doc.nodes@.len(),
                doc == *self,
                ends_ok(doc, ends@),
                live@.len() == m,
                forall|q: int| 0 <= q < m ==> live@[q] == is_feedback_edge(doc, q),
                done.len() == n,
                rank.len() == n,
                indegree@.len() == n,
                visited == count_true(done),
                visited <= n,
                forall|x: int| 0 <= x < n ==> indegree@[x] == pending_into(doc, done, x, 0, m as int),
                forall|q: int|
                    0 <= q < ready@.len() ==> ready@[q] < n && !done[ready@[q] as int]
                        && indegree@[ready@[q] as int] == 0,
                forall|a: int, b: int| 0 <= a < b < ready@.len() ==> ready@[a] != ready@[b],
                forall|x: int| 0 <= x < n && !done[x] && indegree@[x] == 0 ==> ready@.contains(x as usize),
                forall|x: int| 0 <= x < n && done[x] ==> indegree@[x] == 0,
                forall|x: int| 0 <= x < n && done[x] ==> 0 <= rank[x] < visited,
                forall|c: int|
                    0 <= c < m && is_feedback_edge(doc, c) && done[edge_target(doc, c)] ==> done[edge_source(doc, c)]
                        && rank[edge_source(doc, c)] < rank[edge_target(doc, c)],
            decreases n - visited,
        {
            let ghost old_ready = ready@;
            let u = ready.pop().unwrap();
            let ghost old_done = done;
            let ghost old_indegree = indegree@;
            proof {
                assert(old_ready[old_ready.len() - 1] == u);
                lemma_count_true_bound(done);
                lemma_count_true_set(done, u as int);
                lemma_count_true_bound(done.update(u as int, true));
                done = done.update(u as int, true);
                rank = rank.update(u as int, visited as int);
                assert forall|x: int|
                    0 <= x < n && !done[x] && indegree@[x] == 0 implies ready@.contains(x as usize) by {
                    let q = choose|q: int| 0 <= q < old_ready.len() && old_ready[q] == x as usize;
                    if q == old_ready.len() - 1 {
                        assert(x == u as int);
                    } else {
                        assert(ready@[q] == x as usize);
                    }
                }
                assert forall|q: int| 0 <= q < ready@.len() implies ready@[q] < n && !done[ready@[q] as int]
                    && indegree@[ready@[q] as int] == 0 by {
                    assert(ready@[q] == old_ready[q]);
                    assert(old_ready[q] != old_ready[old_ready.len() - 1]);
                }
            }
            visited = visited + 1;
            // Release every feedback cable out of `u`.
            let mut k: usize = 0;
            while k < m
                invariant
                    k <= m,
                    m == ends@.len(),
                    n == doc.nodes@.len(),
                    doc == *self,
                    ends_ok(doc, ends@),
                    u < n,
                    old_done.len() == n,
                    done == old_done.update(u as int, true),
                    !old_done[u as int],
                    live@.len() == m,
                    forall|q: int| 0 <= q < m ==> live@[q] == is_feedback_edge(doc, q),
                    indegree@.len() == n,
                    done.len() == n,
                    pending_into(doc, old_done, u as int, k as int, m as int) == 0,
                    forall|x: int|
                        0 <= x < n ==> indegree@[x] == pending_into(doc, done, x, 0, k as int)
                            + pending_into(doc, old_done, x, k as int, m as int),
                    forall|q: int|
                        0 <= q < ready@.len() ==> ready@[q] < n && !done[ready@[q] as int]
                            && indegree@[ready@[q] as int] == 0,
                    forall|a: int, b: int| 0 <= a < b < ready@.len() ==> ready@[a] != ready@[b],
                    forall|x: int|
                        0 <= x < n && !done[x] && indegree@[x] == 0 && pending_into(
                            doc,
                            old_done,
                            x,
                            k as int,
                            m as int,
                        ) == 0 ==> ready@.contains(x as usize),
                    forall|x: int|
                        0 <= x < n && old_done[x] ==> pending_into(doc, old_done, x, k as int, m as int)
                            == 0,
                decreases m - k,
            {
                proof {
                    lemma_ends_at(doc, ends@, k as int);
                    assert forall|x: int| 0 <= x < n implies #[trigger] pending_into(doc, done, x, 0, k + 1)
                        == pending_into(doc, done, x, 0, k as int) + pending_step(doc, done, x, k as int)
                        && pending_into(doc, old_done, x, k as int, m as int) == pending_step(
                        doc,
                        old_done,
                        x,
                        k as int,
                    ) + pending_into(doc, old_done, x, k + 1, m as int) by {
                        lemma_pending_last(doc, done, x, 0, k as int);
                    }
                }
                let ghost before_ready = ready@;
                if live[k] && ends[k].0 == u {
                    let t = ends[k].1;
                    proof {
                        assert(pending_step(doc, old_done, t as int, k as int) == 1);
                        assert(t != u);
                        assert(!old_done[t as int]);
                    }
                    indegree.set(t, indegree[t] - 1);
                    if indegree[t] == 0 {
                        proof {
                            if ready@.contains(t) {
                                let q = choose|q: int| 0 <= q < ready@.len() && ready@[q] == t;
                                assert(indegree@[ready@[q] as int] == 0);
                            }
                        }
                        ready.push(t);
                        proof {
                            assert forall|x: int|
                                0 <= x < n && !done[x] && indegree@[x] == 0 && pending_into(
                                    doc,
                                    old_done,
                                    x,
                                    k + 1,
                                    m as int,
                                ) == 0 implies ready@.contains(x as usize) by {
                                if x == t as int {
                                    assert(ready@[ready@.len() - 1] == t);
                                } else {
                                    let q = choose|q: int|
                                        0 <= q < before_ready.len() && before_ready[q] == x as usize;
                                    assert(ready@[q] == x as usize);
                                }
                            }
                        }
                    }
                }
                k = k + 1;
            }
            proof {
                assert forall|c: int| 0 <= c < m implies 0 <= #[trigger] edge_source(doc, c) < old_done.len() by {
                    lemma_ends_at(doc, ends@, c);
                }
                assert forall|x: int| 0 <= x < n && done[x] implies indegree@[x] == 0 by {
                    lemma_pending_monotone(doc, old_done, done, x, 0, m as int);
                    if x != u as int {
                        assert(old_done[x]);
                    }
                }
                assert forall|c: int|
                    0 <= c < m && is_feedback_edge(doc, c) && done[edge_target(doc, c)] implies done[edge_source(doc, c)]
                        && rank[edge_source(doc, c)] < rank[edge_target(doc, c)] by {
                    lemma_ends_at(doc, ends@, c);
                    if edge_target(doc, c) == u as int {
                        if !old_done[edge_source(doc, c)] {
                            lemma_pending_positive(doc, old_done, u as int, 0, m as int, c);
                        }
                    } else {
                        assert(old_done[edge_target(doc, c)]);
                    }
                }
            }
        }
        proof {
            lemma_count_true_bound(done);
            if visited == n {
                assert forall|c: int|
                    0 <= c < doc.connections@.len() && #[trigger] is_feedback_edge(doc, c) implies rank[edge_source(
                    doc,
                    c,
                )] < rank[edge_target(doc, c)] by {
                    lemma_ends_at(doc, ends@, c);
                }
                assert(is_feedforward_rank(doc, rank));
                law_feedforward_has_no_cycle(doc);
            } else {
                if forall|x: int| 0 <= x < n ==> done[x] {
                    lemma_count_true_all(done);
                }
                let v = choose|x: int| 0 <= x < n && !done[x];
                assert forall|x: int| 0 <= x < n && !done[x] implies indegree@[x] != 0 by {
                    if indegree@[x] == 0 {
                        assert(ready@.contains(x as usize));
                    }
                }
                lemma_stalled_from_pending(doc, done, ends@, indegree@);
                lemma_stall_has_cycle(doc, done, v);
                assert forall|r: Seq<int>| !is_feedforward_rank(doc, r) by {
                    if is_feedforward_rank(doc, r) {
                        if forall|x: int| 0 <= x < n ==> done[x] {
                            lemma_count_true_all(done);
                        }
                        let w = lemma_min_rank_pending(done, r, n as int);
                        assert(indegree@[w] != 0) by {
                            if indegree@[w] == 0 {
                                assert(ready@.contains(w as usize));
                            }
                        }
                        let c = lemma_pending_witness(doc, done, w, 0, m as int);
                        lemma_ends_at(doc, ends@, c);
                        assert(r[edge_source(doc, c)] < r[edge_target(doc, c)]);
                    }
                }
            }
        }
        visited == n
    }
}

/// `ends` lists, for every cable, the positions of its source and target.
pub open spec fn ends_ok(doc: GraphDocument, ends: Seq<(usize, usize)>) -> bool {
    &&& ends.len() == doc.connections@.len()
    &&& forall|q: int|
        0 <= q < ends.len() ==> #[trigger] ends[q].0 == edge_source(doc, q) && ends[q].1 == edge_target(doc, q)
            && ends[q].0 < doc.nodes@.len() && ends[q].1 < doc.nodes@.len()
}

proof fn lemma_ends_at(doc: GraphDocument, ends: Seq<(usize, usize)>, q: int)
    requires
        ends_ok(doc, ends),
        0 <= q < ends.len(),
    ensures
        ends[q].0 == edge_source(doc, q),
        ends[q].1 == edge_target(doc, q),
        0 <= edge_source(doc, q) < doc.nodes@.len(),
        0 <= edge_target(doc, q) < doc.nodes@.len(),
{
    assert(ends[q].0 == edge_source(doc, q));
}

/// Whether cable `a` counts toward `pending_into(doc, done, v, ..)`.
pub open spec fn pending_step(doc: GraphDocument, done: Seq<bool>, v: int, a: int) -> nat {
    if is_feedback_edge(doc, a) && edge_target(doc, a) == v && !done[edge_source(doc, a)] {
        1nat
    } else {
        0nat
    }
}

proof fn lemma_pending_last(doc: GraphDocument, done: Seq<bool>, v: int, a: int, k: int)
    requires
        a <= k,
    ensures
        pending_into(doc, done, v, a, k + 1) == pending_into(doc, done, v, a, k) + pending_step(
            doc,
            done,
            v,
            k,
        ),
    decreases k - a,
{
    if a < k {
        lemma_pending_last(doc, done, v, a + 1, k);
    } else {
        assert(pending_into(doc, done, v, k + 1, k + 1) == 0);
    }
}

proof fn lemma_pending_monotone(doc: GraphDocument, d1: Seq<bool>, d2: Seq<bool>, v: int, a: int, b: int)
    requires
        d1.len() == d2.len(),
        forall|i: int| 0 <= i < d1.len() && d1[i] ==> d2[i],
        forall|c: int| a <= c < b ==> 0 <= #[trigger] edge_source(doc, c) < d1.len(),
    ensures
        pending_into(doc, d2, v, a, b) <= pending_into(doc, d1, v, a, b),
    decreases b - a,
{
    if a < b {
        lemma_pending_monotone(doc, d1, d2, v, a + 1, b);
    }
}

proof fn lemma_count_true_all(s: Seq<bool>)
    requires
        forall|i: int| 0 <= i < s.len() ==> s[i],
    ensures
        count_true(s) == s.len(),
    decreases s.len(),
{
    if s.len() > 0 {
        lemma_count_true_all(s.drop_last());
    }
}

proof fn lemma_count_true_none(s: Seq<bool>)
    requires
        forall|i: int| 0 <= i < s.len() ==> !s[i],
    ensures
        count_true(s) == 0,
    decreases s.len(),
{
    if s.len() > 0 {
        lemma_count_true_none(s.drop_last());
    }
}

proof fn lemma_pending_bound(doc: GraphDocument, done: Seq<bool>, v: int, a: int, b: int)
    requires
        a <= b,
    ensures
        pending_into(doc, done, v, a, b) <= b - a,
    decreases b - a,
{
    if a < b {
        lemma_pending_bound(doc, done, v, a + 1, b);
    }
}

/// A feedback cable into `v` from an unfinished node makes the count positive.
proof fn lemma_pending_positive(doc: GraphDocument, done: Seq<bool>, v: int, a: int, b: int, c: int)
    requires
        a <= c < b,
        is_feedback_edge(doc, c),
        edge_target(doc, c) == v,
        !done[edge_source(doc, c)],
    ensures
        pending_into(doc, done, v, a, b) > 0,
    decreases b - a,
{
    if a < c {
        lemma_pending_positive(doc, done, v, a + 1, b, c);
    }
}


// ---------------------------------------------------------------------------
// Module catalogue, default document and editing
// ---------------------------------------------------------------------------

/// Scope and port layout that every module of a kind is created with.
pub open spec fn ports_of(kind: NodeKind) -> (NodeScope, Seq<PortKind>, Seq<PortKind>) {
    match kind {
        NodeKind::Wavetable | NodeKind::Exciter => (NodeScope::PerVoice, seq![], seq![PortKind::AudioMono]),
        NodeKind::Morph | NodeKind::ModalBody | NodeKind::Drive | NodeKind::Delay => (
            NodeScope::PerVoice,
            seq![PortKind::AudioMono],
            seq![PortKind::AudioMono],
        ),
        NodeKind::Filter => (NodeScope::PerVoice, seq![PortKind::AudioMono], seq![PortKind::AudioStereo]),
        NodeKind::VoiceBus | NodeKind::Reverb | NodeKind::Equalizer | NodeKind::Limiter => (
            NodeScope::Global,
            seq![PortKind::AudioStereo],
            seq![PortKind::AudioStereo],
        ),
        NodeKind::Output => (NodeScope::Global, seq![PortKind::AudioStereo], seq![]),
    }
}

pub fn node_ports(kind: &NodeKind) -> (r: (NodeScope, Vec<PortKind>, Vec<PortKind>))
    ensures
        r.0 == ports_of(*kind).0,
        r.1@ == ports_of(*kind).1,
        r.2@ == ports_of(*kind).2,
{
    match kind {
        NodeKind::Wavetable | NodeKind::Exciter => (NodeScope::PerVoice, vec![], vec![PortKind::AudioMono]),
        NodeKind::Morph | NodeKind::ModalBody | NodeKind::Drive | NodeKind::Delay => (
            NodeScope::PerVoice,
            vec![PortKind::AudioMono],
            vec![PortKind::AudioMono],
        ),
        NodeKind::Filter => (NodeScope::PerVoice, vec![PortKind::AudioMono], vec![PortKind::AudioStereo]),
        NodeKind::VoiceBus | NodeKind::Reverb | NodeKind::Equalizer | NodeKind::Limiter => (
            NodeScope::Global,
            vec![PortKind::AudioStereo],
            vec![PortKind::AudioStereo],
        ),
        NodeKind::Output => (NodeScope::Global, vec![PortKind::AudioStereo], vec![]),
    }
}

/// Display name of a module kind in the palette.
pub open spec fn label_of(kind: NodeKind) -> Seq<char> {
    match kind {
        NodeKind::Wavetable => "Wavetable"@,
        NodeKind::Exciter => "Noise / Impulse"@,
        NodeKind::Morph => "Energy Morph"@,
        NodeKind::ModalBody => "Modal Body"@,
        NodeKind::Filter => "TPT Filter"@,
        NodeKind::Drive => "Per-note Drive"@,
        NodeKind::Delay => "Feedback Delay"@,
        NodeKind::VoiceBus => "Voice Bus"@,
        NodeKind::Reverb => "Global Reverb"@,
        NodeKind::Equalizer => "Global EQ"@,
        NodeKind::Limiter => "Safety Limiter"@,
        NodeKind::Output => "Stereo Output"@,
    }
}

pub fn node_label(kind: &NodeKind) -> (label: &'static str)
    ensures
        label@ == label_of(*kind),
{
    match kind {
        NodeKind::Wavetable => "Wavetable",
        NodeKind::Exciter => "Noise / Impulse",
        NodeKind::Morph => "Energy Morph",
        NodeKind::ModalBody => "Modal Body",
        NodeKind::Filter => "TPT Filter",
        NodeKind::Drive => "Per-note Drive",
        NodeKind::Delay => "Feedback Delay",
        NodeKind::VoiceBus => "Voice Bus",
        NodeKind::Reverb => "Global Reverb",
        NodeKind::Equalizer => "Global EQ",
        NodeKind::Limiter => "Safety Limiter",
        NodeKind::Output => "Stereo Output",
    }
}

fn node(
    id: u64,
    kind: NodeKind,
    name: &str,
    scope: NodeScope,
    inputs: Vec<PortKind>,
    outputs: Vec<PortKind>,
) -> (n: GraphNode)
    ensures
        n.id == NodeId(id),
        n.kind == kind,
        n.name@ == name@,
        n.scope == scope,
        n.inputs@ == inputs@,
        n.outputs@ == outputs@,
{
    GraphNode { id: NodeId(id), kind, name: name.to_owned(), scope, inputs, outputs }
}

/// The shipped instrument: wavetable, morph, modal body and filter per voice,
/// summed by the voice bus into the limiter and the stereo output, cabled in
/// a chain from node 1 to node 7.
pub fn default_instrument_graph() -> (g: GraphDocument)
    ensures
        g.schema_version == GRAPH_SCHEMA_VERSION,
        g.name@ == "Schisma v0.1 Default"@,
        g.nodes@.len() == 7,
        g.connections@.len() == 6,
        forall|i: int|
            0 <= i < 7 ==> {
                &&& (#[trigger] g.nodes@[i]).id == NodeId((i + 1) as u64)
                &&& g.nodes@[i].scope == ports_of(g.nodes@[i].kind).0
                &&& g.nodes@[i].inputs@ == ports_of(g.nodes@[i].kind).1
                &&& g.nodes@[i].outputs@ == ports_of(g.nodes@[i].kind).2
                &&& i != 4 ==> g.nodes@[i].name@ == label_of(g.nodes@[i].kind)
            },
        g.nodes@[4].name@ == "Voice Bus ×16"@,
        g.nodes@[0].kind == NodeKind::Wavetable,
        g.nodes@[1].kind == NodeKind::Morph,
        g.nodes@[2].kind == NodeKind::ModalBody,
        g.nodes@[3].kind == NodeKind::Filter,
        g.nodes@[4].kind == NodeKind::VoiceBus,
        g.nodes@[5].kind == NodeKind::Limiter,
        g.nodes@[6].kind == NodeKind::Output,
        forall|c: int|
            0 <= c < 6 ==> #[trigger] g.connections@[c] == cable(NodeId((c + 1) as u64), NodeId((c + 2) as u64)),
        validation(g) == Ok::<(), GraphError>(()),
{
    let mut nodes: Vec<GraphNode> = Vec::new();
    nodes.push(node(1, NodeKind::Wavetable, "Wavetable", NodeScope::PerVoice, vec![], vec![PortKind::AudioMono]));
    nodes.push(
        node(
            2,
            NodeKind::Morph,
            "Energy Morph",
            NodeScope::PerVoice,
            vec![PortKind::AudioMono],
            vec![PortKind::AudioMono],
        ),
    );
    nodes.push(
        node(
            3,
            NodeKind::ModalBody,
            "Modal Body",
            NodeScope::PerVoice,
            vec![PortKind::AudioMono],
            vec![PortKind::AudioMono],
        ),
    );
    nodes.push(
        node(
            4,
            NodeKind::Filter,
            "TPT Filter",
            NodeScope::PerVoice,
            vec![PortKind::AudioMono],
            vec![PortKind::AudioStereo],
        ),
    );
    nodes.push(
        node(
            5,
            NodeKind::VoiceBus,
            "Voice Bus ×16",
            NodeScope::Global,
            vec![PortKind::AudioStereo],
            vec![PortKind::AudioStereo],
        ),
    );
    nodes.push(
        node(
            6,
            NodeKind::Limiter,
            "Safety Limiter",
            NodeScope::Global,
            vec![PortKind::AudioStereo],
            vec![PortKind::AudioStereo],
        ),
    );
    nodes.push(
        node(7, NodeKind::Output, "Stereo Output", NodeScope::Global, vec![PortKind::AudioStereo], vec![]),
    );
    let mut connections: Vec<Connection> = Vec::new();
    let mut id: u64 = 1;
    while id <= 6
        invariant
            1 <= id <= 7,
            connections@.len() == id - 1,
            forall|c: int|
                0 <= c < id - 1 ==> #[trigger] connections@[c] == cable(NodeId((c + 1) as u64), NodeId((c + 2) as u64)),
        decreases 7 - id,
    {
        connections.push(Connection { from_node: NodeId(id), from_port: 0, to_node: NodeId(id + 1), to_port: 0 });
        id = id + 1;
    }
    let g = GraphDocument {
        schema_version: GRAPH_SCHEMA_VERSION,
        name: "Schisma v0.1 Default".to_owned(),
        nodes,
        connections,
    };
    proof {
        assert forall|i: int| 0 <= i < 7 implies (#[trigger] g.nodes@[i]).inputs@ =~= ports_of(
            g.nodes@[i].kind,
        ).1 && g.nodes@[i].outputs@ =~= ports_of(g.nodes@[i].kind).2 by {}
        lemma_chain_valid(g);
    }
    g
}

/// A document of seven nodes with ids 1 to 7 in order, the default kinds with
/// their catalogue ports, cabled 1 → 2 → … → 7, validates.
proof fn lemma_chain_valid(g: GraphDocument)
    requires
        g.schema_version == GRAPH_SCHEMA_VERSION,
        g.nodes@.len() == 7,
        g.connections@.len() == 6,
        forall|i: int|
            0 <= i < 7 ==> {
                &&& (#[trigger] g.nodes@[i]).id == NodeId((i + 1) as u64)
                &&& g.nodes@[i].scope == ports_of(g.nodes@[i].kind).0
                &&& g.nodes@[i].inputs@ == ports_of(g.nodes@[i].kind).1
                &&& g.nodes@[i].outputs@ == ports_of(g.nodes@[i].kind).2
            },
        g.nodes@[0].kind == NodeKind::Wavetable,
        g.nodes@[1].kind == NodeKind::Morph,
        g.nodes@[2].kind == NodeKind::ModalBody,
        g.nodes@[3].kind == NodeKind::Filter,
        g.nodes@[4].kind == NodeKind::VoiceBus,
        g.nodes@[5].kind == NodeKind::Limiter,
        g.nodes@[6].kind == NodeKind::Output,
        forall|c: int|
            0 <= c < 6 ==> #[trigger] g.connections@[c] == cable(NodeId((c + 1) as u64), NodeId((c + 2) as u64)),
    ensures
        validation(g) == Ok::<(), GraphError>(()),
{
    let nodes = g.nodes@;
    assert forall|j: int| 0 <= j < 7 implies !repeats_earlier_id(nodes, j) by {
        if repeats_earlier_id(nodes, j) {
            let i = choose|i: int| 0 <= i < j && nodes[i].id == nodes[j].id;
            assert(nodes[i].id == NodeId((i + 1) as u64));
            assert(nodes[j].id == NodeId((j + 1) as u64));
        }
    }
    assert(!exists|j: int| is_first_repeat(nodes, j));
    assert forall|k: int| 0 <= k < 7 implies index_of(nodes, (#[trigger] nodes[k]).id) == k by {
        assert forall|m: int| 0 <= m < k implies nodes[m].id != NodeId((k + 1) as u64) by {
            assert(nodes[m].id == NodeId((m + 1) as u64));
        }
        assert(nodes[k].id == NodeId((k + 1) as u64));
        lemma_index_of(nodes, NodeId((k + 1) as u64), k);
    }
    assert forall|c: int| 0 <= c < 6 implies connection_error(nodes, #[trigger] g.connections@[c]) is None by {
        assert(index_of(nodes, NodeId((c + 1) as u64)) == c);
        assert(index_of(nodes, NodeId((c + 2) as u64)) == c + 1);
        assert(nodes[c].id == NodeId((c + 1) as u64));
        assert(nodes[c + 1].id == NodeId((c + 2) as u64));
        assert(has_id(nodes, NodeId((c + 1) as u64)));
        assert(has_id(nodes, NodeId((c + 2) as u64)));
    }
    assert(!exists|c: int| is_first_bad_connection(g, c));
    let rank = Seq::new(7, |i: int| i);
    assert forall|c: int| 0 <= c < g.connections@.len() && #[trigger] is_feedback_edge(g, c) implies rank[edge_source(g, c)]
        < rank[edge_target(g, c)] by {
        assert(g.connections@[c] == cable(NodeId((c + 1) as u64), NodeId((c + 2) as u64)));
        assert(index_of(nodes, NodeId((c + 1) as u64)) == c);
        assert(index_of(nodes, NodeId((c + 2) as u64)) == c + 1);
    }
    assert(is_feedforward_rank(g, rank));
}

pub open spec fn max_id(nodes: Seq<GraphNode>) -> u64
    decreases nodes.len(),
{
    if nodes.len() == 0 {
        0
    } else {
        let rest = max_id(nodes.drop_last());
        if nodes.last().id.0 > rest {
            nodes.last().id.0
        } else {
            rest
        }
    }
}

proof fn lemma_max_id(nodes: Seq<GraphNode>)
    ensures
        forall|i: int| 0 <= i < nodes.len() ==> nodes[i].id.0 <= max_id(nodes),
        nodes.len() == 0 ==> max_id(nodes) == 0,
        nodes.len() > 0 ==> exists|i: int| 0 <= i < nodes.len() && nodes[i].id.0 == max_id(nodes),
    decreases nodes.len(),
{
    if nodes.len() > 0 {
        lemma_max_id(nodes.drop_last());
        assert forall|i: int| 0 <= i < nodes.len() - 1 implies nodes[i].id.0 <= max_id(nodes) by {
            assert(nodes.drop_last()[i] == nodes[i]);
        }
        if nodes.last().id.0 <= max_id(nodes.drop_last()) && nodes.len() > 1 {
            let i = choose|i: int| 0 <= i < nodes.len() - 1 && nodes.drop_last()[i].id.0 == max_id(nodes.drop_last());
            assert(nodes[i] == nodes.drop_last()[i]);
        }
    }
}

/// The cable that `connect` adds.
pub open spec fn cable(source: NodeId, target: NodeId) -> Connection {
    Connection { from_node: source, from_port: 0, to_node: target, to_port: 0 }
}

/// `d` is `doc` with the cable appended.
pub open spec fn is_cabled(doc: GraphDocument, source: NodeId, target: NodeId, d: GraphDocument) -> bool {
    &&& d.schema_version == doc.schema_version
    &&& d.nodes@ == doc.nodes@
    &&& d.connections@ == doc.connections@.push(cable(source, target))
}

/// A self-cable is refused; any other cable is kept exactly when the cabled
/// document validates, and a refusal reports that document's error.
pub open spec fn connect_outcome(
    before: GraphDocument,
    source: NodeId,
    target: NodeId,
    after: GraphDocument,
    r: Result<(), ConnectError>,
) -> bool {
    if source == target {
        r == Err::<(), ConnectError>(ConnectError::SelfConnection) && after.connections@
            == before.connections@
    } else {
        match r {
            Ok(()) => is_cabled(before, source, target, after) && validation(after) is Ok,
            Err(ConnectError::Invalid(e)) => after.connections@ == before.connections@ && exists|
                d: GraphDocument,
            | is_cabled(before, source, target, d) && validation(d) == Err::<(), GraphError>(e),
            Err(ConnectError::SelfConnection) => false,
        }
    }
}

/// Nodes that survive deleting the module `id`.
pub open spec fn keeps_node(id: NodeId) -> spec_fn(GraphNode) -> bool {
    |n: GraphNode| n.id != id
}

/// Cables that survive deleting the module `id`: those touching it go.
pub open spec fn keeps_cable(id: NodeId) -> spec_fn(Connection) -> bool {
    |c: Connection| c.from_node != id && c.to_node != id
}

/// Deleting element `i`, which `p` rejects, keeps the filtered whole; so does
/// stepping past an element that `p` keeps.
proof fn lemma_filter_step<A>(before: Seq<A>, i: int, p: spec_fn(A) -> bool)
    requires
        0 <= i < before.len(),
    ensures
        before.subrange(i, before.len() as int).filter(p) == (if p(before[i]) {
            seq![before[i]]
        } else {
            Seq::empty()
        }) + before.subrange(i + 1, before.len() as int).filter(p),
{
    let rest = before.subrange(i + 1, before.len() as int);
    assert(before.subrange(i, before.len() as int) =~= seq![before[i]] + rest);
    rest.lemma_filter_prepend(before[i], p);
}

proof fn lemma_filter_empty<A>(s: Seq<A>, p: spec_fn(A) -> bool)
    requires
        s.len() == 0,
    ensures
        s.filter(p) == Seq::<A>::empty(),
{
    s.lemma_filter_len(p);
    assert(s.filter(p) =~= Seq::<A>::empty());
}

/// Why the editor refused a cable.
#[derive(Debug, Clone, Copy, PartialEq, Eq, Structural)]
pub enum ConnectError {
    /// A module cannot cable directly to itself.
    SelfConnection,
    /// The cabled document would break a structural rule.
    Invalid(GraphError),
}

impl GraphDocument {
    /// The id a newly added module receives: one more than the largest id.
    pub fn next_node_id(&self) -> (id: NodeId)
        requires
            max_id(self.nodes@) < u64::MAX,
        ensures
            id.0 == max_id(self.nodes@) + 1,
            forall|i: int| 0 <= i < self.nodes@.len() ==> self.nodes@[i].id.0 < id.0,
    {
        let mut best: u64 = 0;
        let mut i: usize = 0;
        while i < self.nodes.len()
            invariant
                i <= self.nodes@.len(),
                best == max_id(self.nodes@.subrange(0, i as int)),
            decreases self.nodes@.len() - i,
        {
            proof {
                assert(self.nodes@.subrange(0, i + 1).drop_last() == self.nodes@.subrange(0, i as int));
            }
            if self.nodes[i].id.0 > best {
                best = self.nodes[i].id.0;
            }
            i = i + 1;
        }
        proof {
            assert(self.nodes@.subrange(0, i as int) == self.nodes@);
            lemma_max_id(self.nodes@);
        }
        NodeId(best + 1)
    }

    /// Appends a module of `kind` with its catalogue ports and label and a
    /// fresh id, which it returns.
    pub fn add_node(&mut self, kind: NodeKind) -> (id: NodeId)
        requires
            max_id(old(self).nodes@) < u64::MAX,
        ensures
            id.0 == max_id(old(self).nodes@) + 1,
            final(self).schema_version == old(self).schema_version,
            final(self).name == old(self).name,
            final(self).connections == old(self).connections,
            final(self).nodes@.len() == old(self).nodes@.len() + 1,
            forall|i: int| 0 <= i < old(self).nodes@.len() ==> final(self).nodes@[i] == old(self).nodes@[i],
            ({
                let n = final(self).nodes@.last();
                &&& n.id == id
                &&& n.kind == kind
                &&& n.name@ == label_of(kind)
                &&& n.scope == ports_of(kind).0
                &&& n.inputs@ == ports_of(kind).1
                &&& n.outputs@ == ports_of(kind).2
            }),
    {
        let id = self.next_node_id();
        let (scope, inputs, outputs) = node_ports(&kind);
        let name = node_label(&kind).to_owned();
        self.nodes.push(GraphNode { id, kind, name, scope, inputs, outputs });
        id
    }

    /// Cables output 0 of `source` to input 0 of `target` when the result
    /// still validates; otherwise the document is left as it was.
    pub fn connect(&mut self, source: NodeId, target: NodeId) -> (r: Result<(), ConnectError>)
        ensures
            final(self).schema_version == old(self).schema_version,
            final(self).name == old(self).name,
            final(self).nodes == old(self).nodes,
            connect_outcome(*old(self), source, target, *final(self), r),
    {
        if source == target {
            return Err(ConnectError::SelfConnection);
        }
        self.connections.push(Connection { from_node: source, from_port: 0, to_node: target, to_port: 0 });
        match self.validate() {
            Ok(()) => Ok(()),
            Err(e) => {
                let ghost candidate = *self;
                assert(is_cabled(*old(self), source, target, candidate));
                self.connections.pop();
                proof {
                    assert(self.connections@ =~= old(self).connections@);
                }
                Err(ConnectError::Invalid(e))
            },
        }
    }

    /// Deletes the module `id` and every cable into or out of it; all other
    /// modules and cables stay, in their order.
    pub fn remove_node(&mut self, id: NodeId)
        ensures
            final(self).schema_version == old(self).schema_version,
            final(self).name == old(self).name,
            final(self).nodes@ == old(self).nodes@.filter(keeps_node(id)),
            final(self).connections@ == old(self).connections@.filter(keeps_cable(id)),
            !has_id(final(self).nodes@, id),
            forall|c: int|
                0 <= c < final(self).connections@.len() ==> (#[trigger] final(self).connections@[c]).from_node
                    != id && final(self).connections@[c].to_node != id,
    {
        let ghost keep = keeps_node(id);
        let mut i: usize = 0;
        proof {
            assert(self.nodes@.subrange(0, 0) + self.nodes@.subrange(0, self.nodes@.len() as int).filter(keep)
                =~= self.nodes@.filter(keep)) by {
                assert(self.nodes@.subrange(0, self.nodes@.len() as int) =~= self.nodes@);
            }
        }
        while i < self.nodes.len()
            invariant
                i <= self.nodes@.len(),
                self.schema_version == old(self).schema_version,
                self.name == old(self).name,
                self.connections == old(self).connections,
                self.nodes@.subrange(0, i as int) + self.nodes@.subrange(i as int, self.nodes@.len() as int).filter(
                    keep,
                ) == old(self).nodes@.filter(keep),
                keep == keeps_node(id),
            decreases self.nodes@.len() - i,
        {
            let ghost before = self.nodes@;
            proof {
                lemma_filter_step(before, i as int, keep);
            }
            if self.nodes[i].id == id {
                let _gone = self.nodes.remove(i);
                proof {
                    assert(self.nodes@.subrange(0, i as int) =~= before.subrange(0, i as int));
                    assert(self.nodes@.subrange(i as int, self.nodes@.len() as int) =~= before.subrange(
                        i + 1,
                        before.len() as int,
                    ));
                    assert(Seq::<GraphNode>::empty() + before.subrange(i + 1, before.len() as int).filter(keep)
                        =~= before.subrange(i + 1, before.len() as int).filter(keep));
                }
            } else {
                proof {
                    assert(before.subrange(0, i + 1) =~= before.subrange(0, i as int) + seq![before[i as int]]);
                    assert((before.subrange(0, i as int) + seq![before[i as int]]) + before.subrange(
                        i + 1,
                        before.len() as int,
                    ).filter(keep) =~= before.subrange(0, i as int) + (seq![before[i as int]]
                        + before.subrange(i + 1, before.len() as int).filter(keep)));
                }
                i = i + 1;
            }
        }
        proof {
            lemma_filter_empty(self.nodes@.subrange(i as int, self.nodes@.len() as int), keep);
            assert(self.nodes@.subrange(0, i as int) + Seq::<GraphNode>::empty() =~= self.nodes@);
        }
        let ghost cut = keeps_cable(id);
        let mut j: usize = 0;
        proof {
            assert(self.connections@.subrange(0, 0) + self.connections@.subrange(
                0,
                self.connections@.len() as int,
            ).filter(cut) =~= self.connections@.filter(cut)) by {
                assert(self.connections@.subrange(0, self.connections@.len() as int) =~= self.connections@);
            }
        }
        while j < self.connections.len()
            invariant
                j <= self.connections@.len(),
                self.schema_version == old(self).schema_version,
                self.name == old(self).name,
                self.nodes@ == old(self).nodes@.filter(keep),
                self.connections@.subrange(0, j as int) + self.connections@.subrange(
                    j as int,
                    self.connections@.len() as int,
                ).filter(cut) == old(self).connections@.filter(cut),
                cut == keeps_cable(id),
            decreases self.connections@.len() - j,
        {
            let ghost before = self.connections@;
            proof {
                lemma_filter_step(before, j as int, cut);
            }
            let c = self.connections[j];
            if c.from_node == id || c.to_node == id {
                let _gone = self.connections.remove(j);
                proof {
                    assert(self.connections@.subrange(0, j as int) =~= before.subrange(0, j as int));
                    assert(self.connections@.subrange(j as int, self.connections@.len() as int)
                        =~= before.subrange(j + 1, before.len() as int));
                    assert(Seq::<Connection>::empty() + before.subrange(j + 1, before.len() as int).filter(cut)
                        =~= before.subrange(j + 1, before.len() as int).filter(cut));
                }
            } else {
                proof {
                    assert(before.subrange(0, j + 1) =~= before.subrange(0, j as int) + seq![before[j as int]]);
                    assert((before.subrange(0, j as int) + seq![before[j as int]]) + before.subrange(
                        j + 1,
                        before.len() as int,
                    ).filter(cut) =~= before.subrange(0, j as int) + (seq![before[j as int]]
                        + before.subrange(j + 1, before.len() as int).filter(cut)));
                }
                j = j + 1;
            }
        }
        proof {
            lemma_filter_empty(self.connections@.subrange(j as int, self.connections@.len() as int), cut);
            assert(self.connections@.subrange(0, j as int) + Seq::<Connection>::empty() =~= self.connections@);
            assert forall|k: int| 0 <= k < self.nodes@.len() implies self.nodes@[k].id != id by {
                old(self).nodes@.lemma_filter_pred(keep, k);
            }
            assert forall|c: int| 0 <= c < self.connections@.len() implies (
            #[trigger] self.connections@[c]).from_node != id && self.connections@[c].to_node != id by {
                old(self).connections@.lemma_filter_pred(cut, c);
            }
        }
    }
}

} // verus!
