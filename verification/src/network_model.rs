//! The mathematical model of a network: slots seen as a sequence of optional nodes, the
//! consistency of inputs and listeners, paths and acyclicity, and the lemmas about them that
//! the network's operations rely on.
use vstd::prelude::*;
use crate::network::{
    InputId,
    NetworkError,
    NodeId,
    NodeIndex,
    NodeView,
    SlotView,
    count_refs,
    disconnected,
    same_node,
};

verus! {

/// Is there a node in slot `i`?
pub open spec fn live<N, I>(v: Seq<SlotView<N, I>>, i: int) -> bool {
    0 <= i < v.len() && v[i].node is Some
}

/// Does `id` name the node currently in its slot?
pub open spec fn id_valid<N, I: NodeId>(v: Seq<SlotView<N, I>>, id: I) -> bool {
    live(v, id.spec_index() as int) && v[id.spec_index() as int].gen_id == id.spec_gen_id()
}

/// The error a lookup of `id` fails with, when it fails.
pub open spec fn lookup_error<N, I: NodeId>(v: Seq<SlotView<N, I>>, id: I) -> NetworkError<I> {
    if live(v, id.spec_index() as int) {
        NetworkError::OldGenId(id)
    } else {
        NetworkError::NoNodeAt(id)
    }
}

/// The node at a live slot.
pub open spec fn node_at<N, I>(v: Seq<SlotView<N, I>>, i: int) -> NodeView<N, I> {
    v[i].node->0
}

/// The node at slot `b` listens to the node at slot `a`: one of its inputs is connected to it.
pub open spec fn edge<N, I: NodeId>(v: Seq<SlotView<N, I>>, a: int, b: int) -> bool {
    live(v, b) && count_refs(node_at(v, b).inputs, a) > 0
}

/// Every connected input of a node names a node of the network, with its current generation.
pub open spec fn inputs_valid<N, I: NodeId>(v: Seq<SlotView<N, I>>, inputs: Seq<Option<I>>) -> bool {
    forall|k: int|
        0 <= k < inputs.len() && #[trigger] inputs[k] is Some ==> id_valid(v, inputs[k]->0)
}

/// The listener map of the node at slot `a` records exactly, for each listening node, the number
/// of its inputs that are connected to `a`.
pub open spec fn listeners_exact<N, I: NodeId>(v: Seq<SlotView<N, I>>, a: int) -> bool {
    &&& forall|b: NodeIndex|
        #[trigger] node_at(v, a).listeners.contains_key(b) <==> edge(v, a, b as int)
    &&& forall|b: NodeIndex|
        #[trigger] node_at(v, a).listeners.contains_key(b) ==> node_at(v, a).listeners[b]
            == count_refs(node_at(v, b as int).inputs, a)
}

/// Structural consistency of a network.
pub open spec fn network_wf<N, I: NodeId>(v: Seq<SlotView<N, I>>) -> bool {
    &&& v.len() <= u32::MAX
    &&& forall|i: int| #[trigger] live(v, i) ==> node_at(v, i).inputs.len() <= u32::MAX
    &&& forall|i: int| #[trigger] live(v, i) ==> inputs_valid(v, node_at(v, i).inputs)
    &&& forall|i: int| #[trigger] live(v, i) ==> listeners_exact(v, i)
}

/// No input refers to the node at `t` when none of them is connected to it.
pub proof fn lemma_count_refs_zero<I: NodeId>(inputs: Seq<Option<I>>, t: int)
    requires
        forall|k: int|
            0 <= k < inputs.len() && #[trigger] inputs[k] is Some ==> inputs[k]->0.spec_index() != t,
    ensures
        count_refs(inputs, t) == 0,
    decreases inputs.len(),
{
    if inputs.len() > 0 {
        lemma_count_refs_zero(inputs.drop_last(), t);
        assert(inputs.last() == inputs[inputs.len() - 1]);
    }
}

/// A positive count means some input is connected to the node at `t`.
pub proof fn lemma_count_refs_pos<I: NodeId>(inputs: Seq<Option<I>>, t: int) -> (k: int)
    requires
        count_refs(inputs, t) > 0,
    ensures
        0 <= k < inputs.len(),
        inputs[k] is Some,
        inputs[k]->0.spec_index() == t,
    decreases inputs.len(),
{
    if count_refs(inputs.drop_last(), t) > 0 {
        let k = lemma_count_refs_pos(inputs.drop_last(), t);
        k
    } else {
        (inputs.len() - 1) as int
    }
}

/// A slot that is empty, or not yet allocated, is referred to by no input.
pub(crate) proof fn lemma_fresh_slot_unreferenced<N, I: NodeId>(v: Seq<SlotView<N, I>>, idx: int)
    requires
        network_wf(v),
        !live(v, idx),
    ensures
        forall|j: int| #[trigger] live(v, j) ==> count_refs(node_at(v, j).inputs, idx) == 0,
{
    assert forall|j: int| #[trigger] live(v, j) implies count_refs(node_at(v, j).inputs, idx) == 0 by {
        let inputs = node_at(v, j).inputs;
        assert(inputs_valid(v, inputs));
        assert forall|k: int|
            0 <= k < inputs.len() && #[trigger] inputs[k] is Some implies inputs[k]->0.spec_index()
            != idx by {
            assert(id_valid(v, inputs[k]->0));
        }
        lemma_count_refs_zero(inputs, idx);
    }
}

/// Placing a fresh node, with no listeners and no connected inputs, in a slot that no input
/// refers to keeps a network consistent.
pub(crate) proof fn lemma_add_keeps_wf<N, I: NodeId>(v: Seq<SlotView<N, I>>, w: Seq<SlotView<N, I>>, idx: int)
    requires
        network_wf(v),
        !live(v, idx),
        0 <= idx <= v.len(),
        w.len() == if idx == v.len() { v.len() + 1 } else { v.len() },
        w.len() <= u32::MAX,
        forall|j: int| 0 <= j < v.len() && j != idx ==> w[j] == v[j],
        live(w, idx),
        node_at(w, idx).listeners == Map::<NodeIndex, u32>::empty(),
        node_at(w, idx).inputs.len() <= u32::MAX,
        forall|k: int|
            0 <= k < node_at(w, idx).inputs.len() ==> node_at(w, idx).inputs[k] is None,
        forall|j: int| #[trigger] live(v, j) ==> count_refs(node_at(v, j).inputs, idx) == 0,
    ensures
        network_wf(w),
{
    lemma_count_refs_zero(node_at(w, idx).inputs, idx);
    assert forall|i: int| #[trigger] live(w, i) implies node_at(w, i).inputs.len() <= u32::MAX by {
        if i != idx {
            assert(live(v, i));
        }
    }
    assert forall|i: int| #[trigger] live(w, i) implies inputs_valid(w, node_at(w, i).inputs) by {
        if i != idx {
            assert(live(v, i));
            assert(inputs_valid(v, node_at(v, i).inputs));
            let inputs = node_at(w, i).inputs;
            assert forall|k: int|
                0 <= k < inputs.len() && #[trigger] inputs[k] is Some implies id_valid(
                w,
                inputs[k]->0,
            ) by {
                assert(id_valid(v, inputs[k]->0));
            }
        }
    }
    assert forall|a: int| #[trigger] live(w, a) implies listeners_exact(w, a) by {
        if a == idx {
            assert forall|b: NodeIndex| !edge(w, a, b as int) by {
                if live(w, b as int) {
                    if b as int != idx {
                        assert(live(v, b as int));
                    } else {
                        lemma_count_refs_zero(node_at(w, idx).inputs, a);
                    }
                }
            }
        } else {
            assert(live(v, a));
            assert(listeners_exact(v, a));
            assert forall|b: NodeIndex|
                #[trigger] node_at(w, a).listeners.contains_key(b) <==> edge(w, a, b as int) by {
                if b as int == idx {
                    lemma_count_refs_zero(node_at(w, idx).inputs, a);
                    if idx < v.len() {
                        assert(!edge(v, a, b as int));
                    } else {
                        assert(!node_at(v, a).listeners.contains_key(b));
                    }
                } else if live(w, b as int) {
                    assert(live(v, b as int));
                }
            }
            assert forall|b: NodeIndex|
                #[trigger] node_at(w, a).listeners.contains_key(b) implies node_at(w, a).listeners[b]
                == count_refs(node_at(w, b as int).inputs, a) by {
                assert(node_at(v, a).listeners.contains_key(b));
                assert(edge(v, a, b as int));
            }
        }
    }
}

/// The view `v` with the payload of the node at `idx` replaced by `x`.
pub open spec fn with_inner<N, I>(v: Seq<SlotView<N, I>>, idx: int, x: N) -> Seq<SlotView<N, I>> {
    v.update(
        idx,
        SlotView {
            gen_id: v[idx].gen_id,
            node: Some(
                NodeView { listeners: node_at(v, idx).listeners, inputs: node_at(v, idx).inputs, inner: x },
            ),
        },
    )
}

/// Consistency of a network does not depend on the payloads of its nodes.
pub(crate) proof fn lemma_inner_irrelevant<N, I: NodeId>(v: Seq<SlotView<N, I>>, idx: int)
    requires
        network_wf(v),
        live(v, idx),
    ensures
        forall|x: N| #[trigger] network_wf(with_inner(v, idx, x)),
{
    assert forall|x: N| #[trigger] network_wf(with_inner(v, idx, x)) by {
        let w = with_inner(v, idx, x);
        assert forall|i: int| live(w, i) <==> live(v, i) by {}
        assert forall|i: int| #[trigger] live(w, i) implies node_at(w, i).inputs == node_at(v, i).inputs
            && node_at(w, i).listeners == node_at(v, i).listeners by {}
        assert forall|i: int| #[trigger] live(w, i) implies inputs_valid(w, node_at(w, i).inputs) by {
            assert(live(v, i));
            assert(inputs_valid(v, node_at(v, i).inputs));
            let inputs = node_at(w, i).inputs;
            assert forall|k: int|
                0 <= k < inputs.len() && #[trigger] inputs[k] is Some implies id_valid(
                w,
                inputs[k]->0,
            ) by {
                assert(id_valid(v, inputs[k]->0));
            }
        }
        assert forall|a: int| #[trigger] live(w, a) implies listeners_exact(w, a) by {
            assert(live(v, a));
            assert(listeners_exact(v, a));
            assert forall|b: NodeIndex|
                #[trigger] node_at(w, a).listeners.contains_key(b) <==> edge(w, a, b as int) by {
                if live(w, b as int) {
                    assert(live(v, b as int));
                }
            }
            assert forall|b: NodeIndex|
                #[trigger] node_at(w, a).listeners.contains_key(b) implies node_at(w, a).listeners[b]
                == count_refs(node_at(w, b as int).inputs, a) by {
                assert(node_at(v, a).listeners.contains_key(b));
                assert(edge(v, a, b as int));
            }
        }
    }
}

/// How many of the given input connections (zero or one) refer to the node at slot `a`.
pub open spec fn ref_count<I: NodeId>(o: Option<I>, a: int) -> nat {
    match o {
        Some(id) => if id.spec_index() == a { 1nat } else { 0nat },
        None => 0nat,
    }
}

/// Step `i` of the walk `p` follows a listener edge.
pub open spec fn path_step<N, I: NodeId>(v: Seq<SlotView<N, I>>, p: Seq<int>, i: int) -> bool {
    edge(v, p[i], p[i + 1])
}

/// `p` is a walk of at least one step along listener edges.
pub open spec fn is_path<N, I: NodeId>(v: Seq<SlotView<N, I>>, p: Seq<int>) -> bool {
    &&& p.len() >= 2
    &&& forall|i: int| 0 <= i < p.len() - 1 ==> #[trigger] path_step(v, p, i)
}

/// The node at `b` is downstream of the node at `a`: a walk of at least one step leads from
/// `a` to `b` along listener edges.
pub open spec fn reaches<N, I: NodeId>(v: Seq<SlotView<N, I>>, a: int, b: int) -> bool {
    exists|p: Seq<int>| #[trigger] is_path(v, p) && p[0] == a && p.last() == b
}

/// No node is downstream of itself.
pub open spec fn acyclic<N, I: NodeId>(v: Seq<SlotView<N, I>>) -> bool {
    forall|a: int| !#[trigger] reaches(v, a, a)
}

/// Number of false entries of a sequence.
pub open spec fn count_false(s: Seq<bool>) -> nat
    decreases s.len(),
{
    if s.len() == 0 {
        0
    } else {
        count_false(s.drop_last()) + if s.last() { 0nat } else { 1nat }
    }
}

pub(crate) proof fn lemma_count_false_update(s: Seq<bool>, i: int)
    requires
        0 <= i < s.len(),
        !s[i],
    ensures
        count_false(s.update(i, true)) + 1 == count_false(s),
    decreases s.len(),
{
    if i < s.len() - 1 {
        lemma_count_false_update(s.drop_last(), i);
        assert(s.update(i, true).drop_last() =~= s.drop_last().update(i, true));
    } else {
        assert(s.update(i, true).drop_last() =~= s.drop_last());
    }
}

/// Changing one input changes the count of references by what the old and new input contribute.
pub proof fn lemma_count_refs_update<I: NodeId>(s: Seq<Option<I>>, k: int, x: Option<I>, a: int)
    requires
        0 <= k < s.len(),
    ensures
        count_refs(s.update(k, x), a) + ref_count(s[k], a) == count_refs(s, a) + ref_count(x, a),
    decreases s.len(),
{
    if k < s.len() - 1 {
        lemma_count_refs_update(s.drop_last(), k, x, a);
        assert(s.update(k, x).drop_last() =~= s.drop_last().update(k, x));
    } else {
        assert(s.update(k, x).drop_last() =~= s.drop_last());
    }
}

/// Pushing an input adds what it contributes to the count.
pub proof fn lemma_count_refs_push<I: NodeId>(s: Seq<Option<I>>, x: Option<I>, a: int)
    ensures
        count_refs(s.push(x), a) == count_refs(s, a) + ref_count(x, a),
{
    assert(s.push(x).drop_last() =~= s);
}

/// A count never exceeds the number of inputs, and falls short of it when some input does not
/// refer to the node.
pub proof fn lemma_count_refs_bound<I: NodeId>(s: Seq<Option<I>>, a: int, k: int)
    ensures
        count_refs(s, a) <= s.len(),
        0 <= k < s.len() && ref_count(s[k], a) == 0 ==> count_refs(s, a) < s.len(),
    decreases s.len(),
{
    if s.len() > 0 {
        lemma_count_refs_bound(s.drop_last(), a, k);
    }
}

/// Every step of a walk can be extended by an edge.
pub proof fn lemma_path_push<N, I: NodeId>(v: Seq<SlotView<N, I>>, p: Seq<int>, b: int)
    requires
        is_path(v, p),
        edge(v, p.last(), b),
    ensures
        is_path(v, p.push(b)),
{
    let q = p.push(b);
    assert forall|i: int| 0 <= i < q.len() - 1 implies #[trigger] path_step(v, q, i) by {
        if i < p.len() - 1 {
            assert(path_step(v, p, i));
            assert(q[i] == p[i] && q[i + 1] == p[i + 1]);
        } else {
            assert(q[i] == p.last());
        }
    }
}

/// A walk of two or more edges ends in a walk one edge shorter.
pub proof fn lemma_path_drop_last<N, I: NodeId>(v: Seq<SlotView<N, I>>, p: Seq<int>)
    requires
        is_path(v, p),
        p.len() > 2,
    ensures
        is_path(v, p.drop_last()),
        edge(v, p.drop_last().last(), p.last()),
{
    let q = p.drop_last();
    assert forall|i: int| 0 <= i < q.len() - 1 implies #[trigger] path_step(v, q, i) by {
        assert(path_step(v, p, i));
    }
    assert(path_step(v, p, p.len() - 2));
}

/// One edge is a walk.
pub proof fn lemma_edge_reaches<N, I: NodeId>(v: Seq<SlotView<N, I>>, a: int, b: int)
    requires
        edge(v, a, b),
    ensures
        reaches(v, a, b),
{
    let p = seq![a, b];
    assert(path_step(v, p, 0));
    assert(is_path(v, p));
}

/// Reachability extends by one edge.
pub proof fn lemma_reaches_step<N, I: NodeId>(v: Seq<SlotView<N, I>>, a: int, b: int, c: int)
    requires
        reaches(v, a, b),
        edge(v, b, c),
    ensures
        reaches(v, a, c),
{
    let p = choose|p: Seq<int>| #[trigger] is_path(v, p) && p[0] == a && p.last() == b;
    lemma_path_push(v, p, c);
    assert(p.push(c)[0] == a);
}

/// Whatever is reachable ends with an edge.
pub proof fn lemma_reaches_last_edge<N, I: NodeId>(v: Seq<SlotView<N, I>>, a: int, b: int) -> (x: int)
    requires
        reaches(v, a, b),
    ensures
        edge(v, x, b),
        x == a || reaches(v, a, x),
{
    let p = choose|p: Seq<int>| #[trigger] is_path(v, p) && p[0] == a && p.last() == b;
    if p.len() == 2 {
        assert(path_step(v, p, 0));
        a
    } else {
        lemma_path_drop_last(v, p);
        p.drop_last().last()
    }
}

/// Whatever is reachable starts with an edge.
pub proof fn lemma_first_edge<N, I: NodeId>(v: Seq<SlotView<N, I>>, a: int, b: int) -> (y: int)
    requires
        reaches(v, a, b),
    ensures
        edge(v, a, y),
{
    let p = choose|p: Seq<int>| #[trigger] is_path(v, p) && p[0] == a && p.last() == b;
    assert(path_step(v, p, 0));
    p[1]
}

/// A set of slots that contains every listener of `a` and is closed under listener edges
/// contains every node downstream of `a`.
pub(crate) proof fn lemma_closed_contains_reach<N, I: NodeId>(
    v: Seq<SlotView<N, I>>,
    a: int,
    vis: Seq<bool>,
    p: Seq<int>,
)
    requires
        is_path(v, p),
        p[0] == a,
        forall|b: int| #[trigger] edge(v, a, b) ==> 0 <= b < vis.len() && vis[b],
        forall|i: int, b: int|
            0 <= i < vis.len() && vis[i] && #[trigger] edge(v, i, b) ==> 0 <= b < vis.len() && vis[b],
    ensures
        0 <= p.last() < vis.len() && vis[p.last()],
    decreases p.len(),
{
    if p.len() == 2 {
        assert(path_step(v, p, 0));
    } else {
        lemma_path_drop_last(v, p);
        lemma_closed_contains_reach(v, a, vis, p.drop_last());
    }
}

/// In a consistent network, the listener map of a live node holds exactly its out-edges.
pub(crate) proof fn lemma_edge_listener<N, I: NodeId>(v: Seq<SlotView<N, I>>, a: int, b: int)
    requires
        network_wf(v),
        live(v, a),
    ensures
        edge(v, a, b) <==> (0 <= b <= u32::MAX && node_at(v, a).listeners.contains_key(b as u32)),
{
    assert(listeners_exact(v, a));
    if edge(v, a, b) {
        assert(live(v, b));
        assert(node_at(v, a).listeners.contains_key(b as u32));
    }
}

/// No edge leaves a slot without a node.
pub(crate) proof fn lemma_no_edge_from_dead<N, I: NodeId>(v: Seq<SlotView<N, I>>, a: int, b: int)
    requires
        network_wf(v),
        !live(v, a),
    ensures
        !edge(v, a, b),
{
    if edge(v, a, b) {
        let k = lemma_count_refs_pos(node_at(v, b).inputs, a);
        assert(inputs_valid(v, node_at(v, b).inputs));
        assert(id_valid(v, node_at(v, b).inputs[k]->0));
    }
}

/// What checking whether `source` may feed an input of `sink` gives.
pub open spec fn cycle_check<N, I: NodeId>(v: Seq<SlotView<N, I>>, source: I, sink: I) -> Result<
    (),
    NetworkError<I>,
> {
    if same_node(source, sink) {
        Err(NetworkError::WouldCycle { source, sink })
    } else if !id_valid(v, sink) {
        Err(lookup_error(v, sink))
    } else if !id_valid(v, source) {
        Err(lookup_error(v, source))
    } else if reaches(v, sink.spec_index() as int, source.spec_index() as int) {
        Err(NetworkError::WouldCycle { source, sink })
    } else {
        Ok(())
    }
}

/// A connection is refused as closing a cycle exactly when it would close one: when the source
/// and the sink are the same node, or when both exist and the sink already feeds the source
/// through a chain of listeners, so that feeding the sink from the source would lead back to the
/// source.  Every other connection between existing nodes passes the check.
pub proof fn law_cycle_refused_only_when_closing_one<N, I: NodeId>(
    v: Seq<SlotView<N, I>>,
    source: I,
    sink: I,
)
    ensures
        (cycle_check(v, source, sink) matches Err(NetworkError::WouldCycle { .. })) <==> (same_node(
            source,
            sink,
        ) || (id_valid(v, sink) && id_valid(v, source) && reaches(
            v,
            sink.spec_index() as int,
            source.spec_index() as int,
        ))),
        cycle_check(v, source, sink) matches Err(NetworkError::WouldCycle { source: s, sink: t }) ==> s
            == source && t == sink,
        !same_node(source, sink) && id_valid(v, sink) && id_valid(v, source) && !reaches(
            v,
            sink.spec_index() as int,
            source.spec_index() as int,
        ) ==> cycle_check(v, source, sink) is Ok,
{
}

/// Connecting an input is refused as closing a cycle exactly when the node would feed itself:
/// when the target is the node itself, or when both exist and the node already feeds the target.
pub proof fn law_swap_refused_only_when_closing_a_cycle<N, I: NodeId>(
    v: Seq<SlotView<N, I>>,
    node_id: I,
    input_id: InputId,
    target: I,
)
    ensures
        (swap_input_result(v, node_id, input_id, Some(target)) matches Err(
            NetworkError::WouldCycle { .. },
        )) <==> (same_node(target, node_id) || (id_valid(v, node_id) && id_valid(v, target)
            && reaches(v, node_id.spec_index() as int, target.spec_index() as int))),
{
    law_cycle_refused_only_when_closing_one(v, target, node_id);
}

/// What connecting input `input_id` of `node_id` to `target` gives.
pub open spec fn swap_input_result<N, I: NodeId>(
    v: Seq<SlotView<N, I>>,
    node_id: I,
    input_id: InputId,
    target: Option<I>,
) -> Result<(), NetworkError<I>> {
    match target {
        Some(t) if cycle_check(v, t, node_id) is Err => cycle_check(v, t, node_id),
        _ => if !id_valid(v, node_id) {
            Err(lookup_error(v, node_id))
        } else if input_id >= node_at(v, node_id.spec_index() as int).inputs.len() {
            Err(NetworkError::InvalidInputId(input_id))
        } else {
            Ok(())
        },
    }
}

/// `w` is `v` with the inputs of the node at `n` replaced by `inputs`, and nothing else changed
/// but what consistency then requires of the listener maps.
pub open spec fn inputs_changed<N, I: NodeId>(
    v: Seq<SlotView<N, I>>,
    w: Seq<SlotView<N, I>>,
    n: int,
    inputs: Seq<Option<I>>,
) -> bool {
    &&& w.len() == v.len()
    &&& forall|i: int| 0 <= i < v.len() ==> #[trigger] w[i].gen_id == v[i].gen_id
    &&& forall|i: int| #[trigger] live(w, i) <==> live(v, i)
    &&& forall|i: int| #[trigger] live(v, i) && i != n ==> node_at(w, i).inner == node_at(v, i).inner
    &&& forall|i: int| #[trigger] live(v, i) && i != n ==> node_at(w, i).inputs == node_at(v, i).inputs
    &&& live(v, n) && node_at(w, n).inputs == inputs
}

/// The listener map expected at slot `a` once input `k` of node `n`, formerly connected to `c`,
/// is connected to `t`.
pub open spec fn swapped_listeners<I: NodeId>(
    m: Map<NodeIndex, u32>,
    a: int,
    n: NodeIndex,
    c: Option<I>,
    t: Option<I>,
) -> Map<NodeIndex, u32> {
    let m1 = match c {
        Some(cc) => if cc.spec_index() as int == a {
            listeners_after_removal(m, n)
        } else {
            m
        },
        None => m,
    };
    match t {
        Some(tt) => if tt.spec_index() as int == a {
            m1.insert(n, if m1.contains_key(n) { (m1[n] + 1) as u32 } else { 1u32 })
        } else {
            m1
        },
        None => m1,
    }
}

/// Reconnecting one input and adjusting the two affected listener maps keeps a network
/// consistent.
pub(crate) proof fn lemma_swap_wf<N, I: NodeId>(
    v: Seq<SlotView<N, I>>,
    w: Seq<SlotView<N, I>>,
    n: int,
    k: int,
    c: Option<I>,
    t: Option<I>,
)
    requires
        network_wf(v),
        live(v, n),
        0 <= k < node_at(v, n).inputs.len(),
        node_at(v, n).inputs[k] == c,
        t is Some ==> id_valid(v, t->0),
        w.len() == v.len(),
        forall|i: int| 0 <= i < v.len() ==> #[trigger] w[i].gen_id == v[i].gen_id,
        forall|i: int| #[trigger] live(w, i) <==> live(v, i),
        forall|i: int| #[trigger] live(v, i) ==> node_at(w, i).inner == node_at(v, i).inner,
        forall|i: int| #[trigger] live(v, i) && i != n ==> node_at(w, i).inputs == node_at(v, i).inputs,
        node_at(w, n).inputs == node_at(v, n).inputs.update(k, t),
        forall|a: int|
            #[trigger] live(v, a) ==> node_at(w, a).listeners == swapped_listeners(
                node_at(v, a).listeners,
                a,
                n as NodeIndex,
                c,
                t,
            ),
    ensures
        network_wf(w),
        inputs_changed(v, w, n, node_at(v, n).inputs.update(k, t)),
        node_at(w, n).inner == node_at(v, n).inner,
{
    let inputs = node_at(v, n).inputs;
    assert forall|i: int| #[trigger] live(w, i) implies node_at(w, i).inputs.len() <= u32::MAX by {
        assert(live(v, i));
    }
    assert forall|i: int| #[trigger] live(w, i) implies inputs_valid(w, node_at(w, i).inputs) by {
        assert(live(v, i));
        assert(inputs_valid(v, node_at(v, i).inputs));
        let ins = node_at(w, i).inputs;
        assert forall|j: int| 0 <= j < ins.len() && #[trigger] ins[j] is Some implies id_valid(
            w,
            ins[j]->0,
        ) by {
            if i == n && j == k {
                assert(id_valid(v, t->0));
            } else {
                assert(ins[j] == node_at(v, i).inputs[j]);
                assert(id_valid(v, ins[j]->0));
            }
        }
    }
    assert forall|a: int| #[trigger] live(w, a) implies listeners_exact(w, a) by {
        assert(live(v, a));
        assert(listeners_exact(v, a));
        lemma_count_refs_update(inputs, k, t, a);
        lemma_count_refs_update(inputs, k, None, a);
        let nn = n as NodeIndex;
        let m = node_at(v, a).listeners;
        let m1 = match c {
            Some(cc) => if cc.spec_index() as int == a {
                listeners_after_removal(m, nn)
            } else {
                m
            },
            None => m,
        };
        let cnt_old = count_refs(inputs, a);
        let cnt_new = count_refs(node_at(w, n).inputs, a);
        let rc = ref_count(c, a);
        let rt = ref_count(t, a);
        assert(cnt_new + rc == cnt_old + rt);
        assert(cnt_old >= rc);
        lemma_count_refs_bound(node_at(w, n).inputs, a, 0);
        assert(cnt_new <= u32::MAX);
        assert(m.contains_key(nn) <==> cnt_old > 0) by {
            assert(m.contains_key(nn) <==> edge(v, a, n));
        }
        assert(m.contains_key(nn) ==> m[nn] == cnt_old);
        assert(m1.contains_key(nn) <==> cnt_old - rc > 0);
        assert(m1.contains_key(nn) ==> m1[nn] == cnt_old - rc);
        assert(node_at(w, a).listeners.contains_key(nn) <==> cnt_new > 0);
        assert(node_at(w, a).listeners.contains_key(nn) ==> node_at(w, a).listeners[nn] == cnt_new);
        assert forall|b: NodeIndex| b != nn implies (#[trigger] node_at(w, a).listeners.contains_key(b)
            == m.contains_key(b) && (m.contains_key(b) ==> node_at(w, a).listeners[b] == m[b])) by {
            assert(m1.contains_key(b) == m.contains_key(b));
            assert(m.contains_key(b) ==> m1[b] == m[b]);
        }
        assert forall|b: NodeIndex|
            #[trigger] node_at(w, a).listeners.contains_key(b) <==> edge(w, a, b as int) by {
            if b != nn {
                if live(v, b as int) {
                    assert(node_at(w, b as int).inputs == node_at(v, b as int).inputs);
                }
                assert(m.contains_key(b) <==> edge(v, a, b as int));
            }
        }
        assert forall|b: NodeIndex|
            #[trigger] node_at(w, a).listeners.contains_key(b) implies node_at(w, a).listeners[b]
            == count_refs(node_at(w, b as int).inputs, a) by {
            if b != nn {
                assert(m.contains_key(b));
                assert(edge(v, a, b as int));
                assert(node_at(w, b as int).inputs == node_at(v, b as int).inputs);
            }
        }
    }
}

/// Replacing the inputs of one node by inputs that all name nodes of the network, and adjusting
/// every listener map's entry for that node to the new counts, keeps a network consistent.
pub(crate) proof fn lemma_reconnect_wf<N, I: NodeId>(
    v: Seq<SlotView<N, I>>,
    w: Seq<SlotView<N, I>>,
    n: int,
    new_inputs: Seq<Option<I>>,
)
    requires
        network_wf(v),
        live(v, n),
        0 <= n <= u32::MAX,
        new_inputs.len() <= u32::MAX,
        inputs_valid(v, new_inputs),
        w.len() == v.len(),
        forall|i: int| 0 <= i < v.len() ==> #[trigger] w[i].gen_id == v[i].gen_id,
        forall|i: int| #[trigger] live(w, i) <==> live(v, i),
        forall|i: int| #[trigger] live(v, i) && i != n ==> node_at(w, i).inner == node_at(v, i).inner,
        forall|i: int| #[trigger] live(v, i) && i != n ==> node_at(w, i).inputs == node_at(v, i).inputs,
        node_at(w, n).inputs == new_inputs,
        forall|a: int|
            #[trigger] live(v, a) ==> ({
                let mw = node_at(w, a).listeners;
                let mv = node_at(v, a).listeners;
                &&& forall|b: NodeIndex| b != n as NodeIndex ==> (#[trigger] mw.contains_key(b) == mv.contains_key(b)
                    && (mv.contains_key(b) ==> mw[b] == mv[b]))
                &&& mw.contains_key(n as NodeIndex) <==> count_refs(new_inputs, a) > 0
                &&& mw.contains_key(n as NodeIndex) ==> mw[n as NodeIndex] == count_refs(new_inputs, a)
            }),
    ensures
        network_wf(w),
        inputs_changed(v, w, n, new_inputs),
{
    assert forall|i: int| #[trigger] live(w, i) implies node_at(w, i).inputs.len() <= u32::MAX by {
        assert(live(v, i));
    }
    assert forall|i: int| #[trigger] live(w, i) implies inputs_valid(w, node_at(w, i).inputs) by {
        assert(live(v, i));
        assert(inputs_valid(v, node_at(v, i).inputs));
        let ins = node_at(w, i).inputs;
        assert forall|j: int| 0 <= j < ins.len() && #[trigger] ins[j] is Some implies id_valid(
            w,
            ins[j]->0,
        ) by {
            if i == n {
                assert(id_valid(v, new_inputs[j]->0));
            } else {
                assert(ins[j] == node_at(v, i).inputs[j]);
                assert(id_valid(v, ins[j]->0));
            }
        }
    }
    assert forall|a: int| #[trigger] live(w, a) implies listeners_exact(w, a) by {
        assert(live(v, a));
        assert(listeners_exact(v, a));
        let nn = n as NodeIndex;
        let m = node_at(v, a).listeners;
        assert forall|b: NodeIndex|
            #[trigger] node_at(w, a).listeners.contains_key(b) <==> edge(w, a, b as int) by {
            if b != nn {
                if live(v, b as int) {
                    assert(node_at(w, b as int).inputs == node_at(v, b as int).inputs);
                }
                assert(m.contains_key(b) <==> edge(v, a, b as int));
            }
        }
        assert forall|b: NodeIndex|
            #[trigger] node_at(w, a).listeners.contains_key(b) implies node_at(w, a).listeners[b]
            == count_refs(node_at(w, b as int).inputs, a) by {
            if b != nn {
                assert(m.contains_key(b));
                assert(edge(v, a, b as int));
                assert(node_at(w, b as int).inputs == node_at(v, b as int).inputs);
            }
        }
    }
}

/// The network `v` after the node named `id`, at slot `x`, has been removed: its slot is empty,
/// every input connected to it is disconnected, and no node keeps it as a listener.
pub open spec fn removed_view<N, I: NodeId>(v: Seq<SlotView<N, I>>, x: int, id: I) -> Seq<SlotView<N, I>> {
    Seq::new(
        v.len(),
        |j: int|
            if j == x {
                SlotView { gen_id: v[x].gen_id, node: None }
            } else {
                match v[j].node {
                    None => v[j],
                    Some(nd) => SlotView {
                        gen_id: v[j].gen_id,
                        node: Some(
                            NodeView {
                                listeners: nd.listeners.remove(x as NodeIndex),
                                inputs: disconnected(nd.inputs, id),
                                inner: nd.inner,
                            },
                        ),
                    },
                }
            },
    )
}

/// Disconnecting the inputs connected to one node leaves the counts of references to every other
/// node unchanged.
pub proof fn lemma_count_refs_disconnected<I: NodeId>(s: Seq<Option<I>>, id: I, a: int)
    requires
        a != id.spec_index(),
    ensures
        count_refs(disconnected(s, id), a) == count_refs(s, a),
    decreases s.len(),
{
    if s.len() > 0 {
        assert(disconnected(s, id).drop_last() =~= disconnected(s.drop_last(), id));
        lemma_count_refs_disconnected(s.drop_last(), id, a);
    }
}

/// Disconnecting from a node that no input refers to changes nothing.
pub proof fn lemma_disconnected_unreferenced<I: NodeId>(s: Seq<Option<I>>, id: I)
    requires
        count_refs(s, id.spec_index() as int) == 0,
    ensures
        disconnected(s, id) == s,
{
    assert forall|k: int| 0 <= k < s.len() implies disconnected(s, id)[k] == s[k] by {
        if s[k] is Some && same_node(s[k]->0, id) {
            lemma_count_refs_update(s, k, None, id.spec_index() as int);
        }
    }
    assert(disconnected(s, id) =~= s);
}

/// Removing a node keeps a network consistent.
pub(crate) proof fn lemma_remove_wf<N, I: NodeId>(v: Seq<SlotView<N, I>>, id: I)
    requires
        network_wf(v),
        id_valid(v, id),
    ensures
        network_wf(removed_view(v, id.spec_index() as int, id)),
{
    let x = id.spec_index() as int;
    let w = removed_view(v, x, id);
    assert forall|i: int| #[trigger] live(w, i) implies live(v, i) && i != x by {}
    assert forall|i: int| #[trigger] live(w, i) implies node_at(w, i).inputs.len() <= u32::MAX by {
        assert(live(v, i));
    }
    assert forall|i: int| #[trigger] live(w, i) implies inputs_valid(w, node_at(w, i).inputs) by {
        assert(live(v, i));
        assert(inputs_valid(v, node_at(v, i).inputs));
        let ins = node_at(w, i).inputs;
        assert forall|j: int| 0 <= j < ins.len() && #[trigger] ins[j] is Some implies id_valid(
            w,
            ins[j]->0,
        ) by {
            let o = node_at(v, i).inputs[j];
            assert(id_valid(v, o->0));
            assert(!same_node(o->0, id));
        }
    }
    assert forall|a: int| #[trigger] live(w, a) implies listeners_exact(w, a) by {
        assert(live(v, a));
        assert(listeners_exact(v, a));
        assert forall|b: NodeIndex|
            #[trigger] node_at(w, a).listeners.contains_key(b) <==> edge(w, a, b as int) by {
            if b as int != x && live(v, b as int) {
                lemma_count_refs_disconnected(node_at(v, b as int).inputs, id, a);
            }
            if b as int != x {
                assert(node_at(v, a).listeners.contains_key(b) <==> edge(v, a, b as int));
            }
        }
        assert forall|b: NodeIndex|
            #[trigger] node_at(w, a).listeners.contains_key(b) implies node_at(w, a).listeners[b]
            == count_refs(node_at(w, b as int).inputs, a) by {
            assert(node_at(v, a).listeners.contains_key(b));
            assert(edge(v, a, b as int));
            lemma_count_refs_disconnected(node_at(v, b as int).inputs, id, a);
        }
    }
}

/// The count over a prefix of the inputs never exceeds the count over all of them.
pub proof fn lemma_count_refs_prefix<I: NodeId>(s: Seq<Option<I>>, k: int, a: int)
    requires
        0 <= k <= s.len(),
    ensures
        count_refs(s.take(k), a) <= count_refs(s, a),
    decreases s.len(),
{
    if k < s.len() {
        lemma_count_refs_prefix(s.drop_last(), k, a);
        assert(s.drop_last().take(k) =~= s.take(k));
    } else {
        assert(s.take(k) =~= s);
    }
}

/// Reachability is transitive.
pub proof fn lemma_reaches_trans<N, I: NodeId>(v: Seq<SlotView<N, I>>, a: int, b: int, c: int)
    requires
        reaches(v, a, b),
        reaches(v, b, c),
    ensures
        reaches(v, a, c),
    decreases ({
        let q = choose|q: Seq<int>| #[trigger] is_path(v, q) && q[0] == b && q.last() == c;
        q.len()
    }),
{
    let q = choose|q: Seq<int>| #[trigger] is_path(v, q) && q[0] == b && q.last() == c;
    if q.len() == 2 {
        assert(path_step(v, q, 0));
        lemma_reaches_step(v, a, b, c);
    } else {
        lemma_path_drop_last(v, q);
        let d = q.drop_last().last();
        assert(q.drop_last()[0] == b);
        lemma_reaches_trans_path(v, a, b, q.drop_last());
        lemma_reaches_step(v, a, d, c);
    }
}

/// Reachability extends along a walk.
pub(crate) proof fn lemma_reaches_trans_path<N, I: NodeId>(v: Seq<SlotView<N, I>>, a: int, b: int, q: Seq<int>)
    requires
        reaches(v, a, b),
        is_path(v, q),
        q[0] == b,
    ensures
        reaches(v, a, q.last()),
    decreases q.len(),
{
    if q.len() == 2 {
        assert(path_step(v, q, 0));
        lemma_reaches_step(v, a, b, q[1]);
    } else {
        lemma_path_drop_last(v, q);
        lemma_reaches_trans_path(v, a, b, q.drop_last());
        lemma_reaches_step(v, a, q.drop_last().last(), q.last());
    }
}

/// A walk in a network whose edges are all edges of another network is a walk there too.
pub(crate) proof fn lemma_path_in_supergraph<N, I: NodeId>(v: Seq<SlotView<N, I>>, w: Seq<SlotView<N, I>>, p: Seq<int>)
    requires
        forall|a: int, b: int| #[trigger] edge(w, a, b) ==> edge(v, a, b),
        is_path(w, p),
    ensures
        is_path(v, p),
{
    assert forall|i: int| 0 <= i < p.len() - 1 implies #[trigger] path_step(v, p, i) by {
        assert(path_step(w, p, i));
    }
}

/// Dropping edges keeps a network free of cycles.
pub proof fn lemma_acyclic_subgraph<N, I: NodeId>(v: Seq<SlotView<N, I>>, w: Seq<SlotView<N, I>>)
    requires
        acyclic(v),
        forall|a: int, b: int| #[trigger] edge(w, a, b) ==> edge(v, a, b),
    ensures
        acyclic(w),
{
    assert forall|a: int| !#[trigger] reaches(w, a, a) by {
        if reaches(w, a, a) {
            let p = choose|p: Seq<int>| #[trigger] is_path(w, p) && p[0] == a && p.last() == a;
            lemma_path_in_supergraph(v, w, p);
            assert(reaches(v, a, a));
        }
    }
}

/// A walk in a network that has at most one edge, from `s` to `t`, beyond those of another
/// network either is a walk of the other network or passes from `s` to `t`.
pub(crate) proof fn lemma_path_with_new_edge<N, I: NodeId>(
    v: Seq<SlotView<N, I>>,
    w: Seq<SlotView<N, I>>,
    s: int,
    t: int,
    p: Seq<int>,
)
    requires
        forall|a: int, b: int| #[trigger] edge(w, a, b) ==> edge(v, a, b) || (a == s && b == t),
        is_path(w, p),
    ensures
        reaches(v, p[0], p.last()) || ((p[0] == s || reaches(v, p[0], s)) && (t == p.last() || reaches(
            v,
            t,
            p.last(),
        ))),
    decreases p.len(),
{
    let a = p[0];
    let z = p.last();
    if p.len() == 2 {
        assert(path_step(w, p, 0));
        if edge(v, a, z) {
            lemma_edge_reaches(v, a, z);
        }
    } else {
        lemma_path_drop_last(w, p);
        let q = p.drop_last();
        let y = q.last();
        assert(q[0] == a);
        lemma_path_with_new_edge(v, w, s, t, q);
        if edge(v, y, z) {
            if reaches(v, a, y) {
                lemma_reaches_step(v, a, y, z);
            } else {
                if t == y {
                    lemma_edge_reaches(v, t, z);
                } else {
                    lemma_reaches_step(v, t, y, z);
                }
            }
        } else {
            assert(y == s && z == t);
            if reaches(v, a, y) {
            }
        }
    }
}

/// Adding one edge from `s` to `t`, where `s` is not downstream of `t` and differs from it,
/// keeps a network free of cycles.
pub proof fn lemma_acyclic_new_edge<N, I: NodeId>(
    v: Seq<SlotView<N, I>>,
    w: Seq<SlotView<N, I>>,
    s: int,
    t: int,
)
    requires
        acyclic(v),
        s != t,
        !reaches(v, t, s),
        forall|a: int, b: int| #[trigger] edge(w, a, b) ==> edge(v, a, b) || (a == s && b == t),
    ensures
        acyclic(w),
{
    assert forall|a: int| !#[trigger] reaches(w, a, a) by {
        if reaches(w, a, a) {
            let p = choose|p: Seq<int>| #[trigger] is_path(w, p) && p[0] == a && p.last() == a;
            lemma_path_with_new_edge(v, w, s, t, p);
            if reaches(v, a, a) {
            } else {
                if t == a {
                    if reaches(v, a, s) {
                    }
                } else {
                    if a == s {
                    } else {
                        lemma_reaches_trans(v, t, a, s);
                    }
                }
            }
        }
    }
}

/// Edges of a network after one node's inputs changed: new edges only lead into that node, from
/// nodes its new inputs refer to.
pub(crate) proof fn lemma_changed_edges<N, I: NodeId>(
    v: Seq<SlotView<N, I>>,
    w: Seq<SlotView<N, I>>,
    n: int,
    inputs: Seq<Option<I>>,
)
    requires
        inputs_changed(v, w, n, inputs),
    ensures
        forall|a: int, b: int| #[trigger] edge(w, a, b) ==> edge(v, a, b) || (b == n && count_refs(
            inputs,
            a,
        ) > 0),
{
    assert forall|a: int, b: int| #[trigger] edge(w, a, b) implies edge(v, a, b) || (b == n
        && count_refs(inputs, a) > 0) by {
        if b != n {
            assert(live(v, b));
        }
    }
}

/// Placing a fresh node without connected inputs in an empty slot adds no edge.
pub(crate) proof fn lemma_add_edges<N, I: NodeId>(v: Seq<SlotView<N, I>>, w: Seq<SlotView<N, I>>, idx: int)
    requires
        network_wf(v),
        !live(v, idx),
        0 <= idx <= v.len(),
        w.len() == if idx == v.len() { v.len() + 1 } else { v.len() },
        forall|j: int| 0 <= j < v.len() && j != idx ==> w[j] == v[j],
        live(w, idx),
        forall|k: int|
            0 <= k < node_at(w, idx).inputs.len() ==> node_at(w, idx).inputs[k] is None,
    ensures
        acyclic(v) ==> acyclic(w),
{
    assert forall|a: int, b: int| #[trigger] edge(w, a, b) implies edge(v, a, b) by {
        if b == idx {
            lemma_count_refs_zero(node_at(w, idx).inputs, a);
        } else {
            assert(w[b] == v[b]);
        }
    }
    if acyclic(v) {
        lemma_acyclic_subgraph(v, w);
    }
}


/// While a removed node's inputs are being disconnected, after its first `k` inputs: node `i`
/// of `w` still has every listener that it has in `v` but the removed node `x`, which it keeps
/// exactly for the connections from the inputs not yet disconnected.
pub open spec fn listeners_left<N, I: NodeId>(
    w: Seq<SlotView<N, I>>,
    v: Seq<SlotView<N, I>>,
    inputs: Seq<Option<I>>,
    k: int,
    x: NodeIndex,
    i: int,
) -> bool {
    let mw = node_at(w, i).listeners;
    let mv = node_at(v, i).listeners;
    let left = count_refs(inputs, i) - count_refs(inputs.take(k), i);
    &&& forall|b: NodeIndex| b != x ==> (#[trigger] mw.contains_key(b) == mv.contains_key(b) && (
    mv.contains_key(b) ==> mw[b] == mv[b]))
    &&& mw.contains_key(x) <==> left > 0
    &&& mw.contains_key(x) ==> mw[x] == left
}

/// Disconnecting input `k`, which is connected to node `a`, removes one count of `x` from `a`'s
/// listeners and keeps `listeners_left` for one more input.
pub proof fn lemma_listeners_left_step<N, I: NodeId>(
    before: Seq<SlotView<N, I>>,
    after: Seq<SlotView<N, I>>,
    v: Seq<SlotView<N, I>>,
    inputs: Seq<Option<I>>,
    k: int,
    x: NodeIndex,
    a: int,
)
    requires
        0 <= k < inputs.len(),
        inputs[k] matches Some(t) && t.spec_index() == a,
        after.len() == before.len(),
        forall|i: int| 0 <= i < before.len() && i != a ==> #[trigger] after[i] == before[i],
        live(before, a),
        live(after, a),
        node_at(after, a).listeners == listeners_after_removal(node_at(before, a).listeners, x),
        forall|i: int| #[trigger] live(before, i) ==> listeners_left(before, v, inputs, k, x, i),
        forall|i: int| #[trigger] live(before, i) ==> count_refs(inputs.take(k + 1), i) <= count_refs(
            inputs,
            i,
        ),
    ensures
        forall|i: int| #[trigger] live(after, i) ==> listeners_left(after, v, inputs, k + 1, x, i),
{
    assert(inputs.take(k + 1).drop_last() =~= inputs.take(k));
    assert(inputs.take(k + 1).last() == inputs[k]);
    assert forall|i: int| #[trigger] live(after, i) implies listeners_left(after, v, inputs, k + 1, x, i) by {
        if i != a {
            assert(after[i] == before[i]);
        }
        assert(live(before, i));
        assert(listeners_left(before, v, inputs, k, x, i));
        assert(count_refs(inputs.take(k + 1), i) == count_refs(inputs.take(k), i) + ref_count(
            inputs[k],
            i,
        ));
    }
}

/// In a consistent network the listeners of every node are determined by the inputs of all the
/// nodes.
pub proof fn lemma_listeners_determined<N, I: NodeId>(v: Seq<SlotView<N, I>>, x: Seq<SlotView<N, I>>)
    requires
        network_wf(v),
        network_wf(x),
        x.len() == v.len(),
        forall|i: int| #[trigger] live(x, i) <==> live(v, i),
        forall|i: int| #[trigger] live(v, i) ==> node_at(x, i).inputs == node_at(v, i).inputs,
    ensures
        forall|i: int| #[trigger] live(v, i) ==> node_at(x, i).listeners == node_at(v, i).listeners,
{
    assert forall|a: int| #[trigger] live(v, a) implies node_at(x, a).listeners == node_at(v, a).listeners by {
        assert(listeners_exact(v, a));
        assert(live(x, a));
        assert(listeners_exact(x, a));
        assert forall|b: NodeIndex| #[trigger] node_at(x, a).listeners.contains_key(b) == node_at(v, a).listeners.contains_key(b)
            by {
            assert(live(x, b as int) == live(v, b as int));
            if live(v, b as int) {
                assert(node_at(x, b as int).inputs == node_at(v, b as int).inputs);
            }
            assert(edge(x, a, b as int) == edge(v, a, b as int));
        }
        assert forall|b: NodeIndex| #[trigger] node_at(x, a).listeners.contains_key(b) implies node_at(x, a).listeners[b]
            == node_at(v, a).listeners[b] by {
            assert(live(x, b as int) == live(v, b as int));
            assert(edge(x, a, b as int));
            assert(node_at(x, b as int).inputs == node_at(v, b as int).inputs);
        }
        assert(node_at(x, a).listeners =~= node_at(v, a).listeners);
    }
}

/// Popping the input that was just pushed onto a node restores the network, but for the payload
/// of that node, which the node's own hooks may have changed.
pub proof fn law_pop_undoes_push<N, I: NodeId>(
    v: Seq<SlotView<N, I>>,
    w: Seq<SlotView<N, I>>,
    x: Seq<SlotView<N, I>>,
    n: int,
    t: Option<I>,
)
    requires
        network_wf(v),
        network_wf(w),
        network_wf(x),
        inputs_changed(v, w, n, node_at(v, n).inputs.push(t)),
        inputs_changed(w, x, n, node_at(w, n).inputs.drop_last()),
    ensures
        x == with_inner(v, n, node_at(x, n).inner),
{
    assert(node_at(v, n).inputs.push(t).drop_last() =~= node_at(v, n).inputs);
    assert forall|i: int| #[trigger] live(v, i) implies node_at(x, i).inputs == node_at(v, i).inputs by {
        assert(live(w, i));
    }
    assert forall|i: int| #[trigger] live(x, i) <==> live(v, i) by {
        assert(live(w, i) <==> live(v, i));
    }
    lemma_listeners_determined(v, x);
    let y = with_inner(v, n, node_at(x, n).inner);
    assert forall|i: int| 0 <= i < x.len() implies #[trigger] x[i] == y[i] by {
        assert(x[i].gen_id == w[i].gen_id);
        if live(v, i) {
            assert(live(x, i));
            if i != n {
                assert(live(w, i));
                assert(node_at(x, i).inner == node_at(w, i).inner);
            }
            assert(node_at(x, i) == node_at(y, i));
        } else {
            assert(!live(x, i));
        }
    }
    assert(x =~= y);
}

/// The listeners of node `m` after one connection from `listener` is removed.
pub open spec fn listeners_after_removal(m: Map<NodeIndex, u32>, listener: NodeIndex) -> Map<
    NodeIndex,
    u32,
> {
    if m.contains_key(listener) {
        if m[listener] <= 1 {
            m.remove(listener)
        } else {
            m.insert(listener, (m[listener] - 1) as u32)
        }
    } else {
        m
    }
}

/// Removing one connection from a listener lowers its count by one, drops it once its count
/// reaches zero, and leaves every other listener as it was; counts stay positive, so a node has
/// listeners exactly when its listener map is not empty.
pub proof fn law_listener_removal_counts(m: Map<NodeIndex, u32>, listener: NodeIndex)
    requires
        forall|k: NodeIndex| #[trigger] m.contains_key(k) ==> m[k] > 0,
    ensures
        ({
            let r = listeners_after_removal(m, listener);
            &&& m.contains_key(listener) && m[listener] > 1 ==> r.contains_key(listener) && r[listener]
                == m[listener] - 1
            &&& m.contains_key(listener) && m[listener] == 1 ==> !r.contains_key(listener)
            &&& !m.contains_key(listener) ==> r == m
            &&& forall|k: NodeIndex|
                k != listener ==> (#[trigger] r.contains_key(k) == m.contains_key(k) && (m.contains_key(
                    k,
                ) ==> r[k] == m[k]))
            &&& forall|k: NodeIndex| #[trigger] r.contains_key(k) ==> r[k] > 0
        }),
{
}

} // verus!
