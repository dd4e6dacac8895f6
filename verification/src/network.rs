//! A generic dataflow network.
//! Nodes live in slots that are indexed by a stable integer and tagged with a generation ID, so
//! that an identifier of a removed node can never reach a node that later reuses its slot.
//! Each node holds a list of inputs, each possibly connected to another node, and keeps track of
//! which other nodes listen to it and through how many of their inputs.
use vstd::prelude::*;
use std::collections::HashMap;
use std::marker::PhantomData;
use crate::network_model::{
    acyclic,
    count_false,
    cycle_check,
    edge,
    id_valid,
    inputs_changed,
    inputs_valid,
    is_path,
    lemma_acyclic_new_edge,
    lemma_acyclic_subgraph,
    lemma_add_edges,
    lemma_add_keeps_wf,
    lemma_changed_edges,
    lemma_closed_contains_reach,
    lemma_count_false_update,
    lemma_count_refs_bound,
    lemma_count_refs_disconnected,
    lemma_count_refs_pos,
    lemma_count_refs_prefix,
    lemma_count_refs_push,
    lemma_count_refs_update,
    lemma_disconnected_unreferenced,
    lemma_edge_listener,
    lemma_edge_reaches,
    lemma_first_edge,
    lemma_fresh_slot_unreferenced,
    lemma_inner_irrelevant,
    lemma_listeners_left_step,
    lemma_no_edge_from_dead,
    lemma_reaches_last_edge,
    lemma_reaches_step,
    lemma_reconnect_wf,
    lemma_remove_wf,
    lemma_swap_wf,
    listeners_after_removal,
    listeners_exact,
    listeners_left,
    live,
    lookup_error,
    network_wf,
    node_at,
    reaches,
    ref_count,
    removed_view,
    swap_input_result,
    with_inner,
};

verus! {

/// Index of a slot in a network.
pub type NodeIndex = u32;
/// Generation of a slot; it is incremented each time an empty slot is filled.
pub type GenerationId = u32;
/// Index of an input of a node.
pub type InputId = u32;

/// Identifier of a node in a network: a slot index together with a generation ID.
/// Each network domain uses its own identifier type so that identifiers cannot cross networks.
pub trait NodeId: Copy + Sized {
    /// The slot index named by this identifier.
    spec fn spec_index(&self) -> NodeIndex;

    /// The generation named by this identifier.
    spec fn spec_gen_id(&self) -> GenerationId;

    /// Return the index of this node.
    fn index(&self) -> (r: NodeIndex)
        ensures
            r == self.spec_index(),
    ;

    /// Return the generation ID of this node.
    fn gen_id(&self) -> (r: GenerationId)
        ensures
            r == self.spec_gen_id(),
    ;

    /// Create a node ID from an index and a generation ID.
    fn new(index: NodeIndex, gen_id: GenerationId) -> (r: Self)
        ensures
            r.spec_index() == index,
            r.spec_gen_id() == gen_id,
    ;
}

/// Two identifiers name the same node when they carry the same index and generation.
pub open spec fn same_node<I: NodeId>(a: I, b: I) -> bool {
    a.spec_index() == b.spec_index() && a.spec_gen_id() == b.spec_gen_id()
}

/// Options that a node's payload can express about its inputs.
pub trait Inputs<M> {
    /// How many inputs this node should have when it is created.
    fn default_input_count(&self) -> u32;

    /// Tell this node that another input is being pushed.
    /// Return Ok if this is allowed, along with a message for the caller to hand on.
    fn try_push_input(&mut self) -> Result<M, ()>;

    /// Tell this node that its last input is being popped.
    /// Return Ok if this is allowed, along with a message for the caller to hand on.
    fn try_pop_input(&mut self) -> Result<M, ()>;
}

/// The mathematical content of a node: who listens to it and how often, what its inputs are
/// connected to, and its payload.
pub struct NodeView<N, I> {
    pub listeners: Map<NodeIndex, u32>,
    pub inputs: Seq<Option<I>>,
    pub inner: N,
}

/// The mathematical content of a slot.
pub struct SlotView<N, I> {
    pub gen_id: GenerationId,
    pub node: Option<NodeView<N, I>>,
}

/// Number of inputs in `inputs` that are connected to the node at slot `target`.
pub open spec fn count_refs<I: NodeId>(inputs: Seq<Option<I>>, target: int) -> nat
    decreases inputs.len(),
{
    if inputs.len() == 0 {
        0
    } else {
        count_refs(inputs.drop_last(), target) + (match inputs.last() {
            Some(id) => if id.spec_index() == target { 1nat } else { 0nat },
            None => 0nat,
        })
    }
}

/// `inputs` with every input connected to `target` disconnected.
pub open spec fn disconnected<I: NodeId>(inputs: Seq<Option<I>>, target: I) -> Seq<Option<I>> {
    Seq::new(
        inputs.len(),
        |k: int|
            match inputs[k] {
                Some(id) => if same_node(id, target) { None } else { inputs[k] },
                None => None,
            },
    )
}

/// Listener map of a key-count list.
pub open spec fn pairs_map(pairs: Seq<(NodeIndex, u32)>) -> Map<NodeIndex, u32> {
    Map::new(
        |k: NodeIndex| exists|i: int| 0 <= i < pairs.len() && pairs[i].0 == k,
        |k: NodeIndex| pairs[choose|i: int| 0 <= i < pairs.len() && pairs[i].0 == k].1,
    )
}

/// No key occurs twice in a key-count list, and every count is positive.
pub open spec fn pairs_wf(pairs: Seq<(NodeIndex, u32)>) -> bool {
    &&& forall|i: int, j: int|
        0 <= i < pairs.len() && 0 <= j < pairs.len() && i != j ==> pairs[i].0 != pairs[j].0
    &&& forall|i: int| 0 <= i < pairs.len() ==> pairs[i].1 > 0
}

/// In a list without repeated keys, the map gives the count stored beside a key.
pub proof fn lemma_pairs_lookup(pairs: Seq<(NodeIndex, u32)>, i: int)
    requires
        pairs_wf(pairs),
        0 <= i < pairs.len(),
    ensures
        pairs_map(pairs).contains_key(pairs[i].0),
        pairs_map(pairs)[pairs[i].0] == pairs[i].1,
{
    let k = pairs[i].0;
    assert(pairs_map(pairs).dom().contains(k));
    let j = choose|j: int| 0 <= j < pairs.len() && pairs[j].0 == k;
    assert(j == i);
}

/// A key that occurs nowhere in a list is not in its map.
pub proof fn lemma_pairs_absent(pairs: Seq<(NodeIndex, u32)>, k: NodeIndex)
    requires
        forall|i: int| 0 <= i < pairs.len() ==> pairs[i].0 != k,
    ensures
        !pairs_map(pairs).contains_key(k),
{
}

/// A single node of a network.
pub struct Node<N, I> {
    /// Which other nodes are listening to this one, and through how many of their inputs.
    /// Every count is positive.
    listeners: HashMap<NodeIndex, u32>,
    /// This node's inputs and the nodes they are connected to, if any.
    inputs: Vec<Option<I>>,
    inner: N,
}

impl<N, I: NodeId> View for Node<N, I> {
    type V = NodeView<N, I>;

    closed spec fn view(&self) -> NodeView<N, I> {
        NodeView { listeners: self.listeners@, inputs: self.inputs@, inner: self.inner }
    }
}

impl<N, I: NodeId> Node<N, I> {
    /// Internal consistency of the node's listener list.
    pub closed spec fn wf(&self) -> bool {
        forall|k: NodeIndex| #[trigger] self.listeners@.contains_key(k) ==> self.listeners@[k] > 0
    }

    /// Create a node around a payload, with the payload's default number of unconnected inputs.
    pub fn new<M>(node: N) -> (r: Self)
        where N: Inputs<M>,
        ensures
            r.wf(),
            r@.listeners == Map::<NodeIndex, u32>::empty(),
            r@.inputs.len() <= u32::MAX,
            forall|k: int| 0 <= k < r@.inputs.len() ==> r@.inputs[k] is None,
            r@.inner == node,
            call_ensures(N::default_input_count, (&node,), r@.inputs.len() as u32),
    {
        let n = node.default_input_count();
        let mut inputs: Vec<Option<I>> = Vec::new();
        let mut k: u32 = 0;
        while k < n
            invariant
                k <= n,
                inputs@.len() == k,
                forall|j: int| 0 <= j < inputs@.len() ==> inputs@[j] is None,
            decreases n - k,
        {
            inputs.push(None);
            k = k + 1;
        }
        broadcast use vstd::std_specs::hash::group_hash_axioms;

        let r = Node { listeners: HashMap::new(), inputs, inner: node };
        assert(r@.listeners =~= Map::<NodeIndex, u32>::empty());
        r
    }

    /// Return true if this node's listener collection is not empty.
    pub fn has_listeners(&self) -> (r: bool)
        requires
            self.wf(),
        ensures
            r == !self@.listeners.dom().is_empty(),
    {
        broadcast use vstd::std_specs::hash::group_hash_axioms;

        let empty = self.listeners.is_empty();
        assert(self@.listeners.is_empty() <==> self@.listeners.dom().is_empty()) by {
            if self@.listeners.dom().is_empty() {
                assert(self@.listeners =~= Map::<NodeIndex, u32>::empty());
            }
        }
        !empty
    }

    /// The listening nodes' indices, each with the number of its inputs connected to this node.
    pub fn listener_counts(&self) -> (r: &HashMap<NodeIndex, u32>)
        ensures
            r@ == self@.listeners,
    {
        &self.listeners
    }

    /// The listening nodes' indices with their counts, as a list without repeated indices.
    fn listener_list(&self) -> (r: Vec<(NodeIndex, u32)>)
        requires
            self.wf(),
        ensures
            pairs_wf(r@),
            pairs_map(r@) == self@.listeners,
    {
        broadcast use vstd::std_specs::hash::group_hash_axioms;

        let mut r: Vec<(NodeIndex, u32)> = Vec::new();
        let ghost m = self@.listeners;
        for pair in it: self.listeners.iter()
            invariant
                m == self@.listeners,
                forall|k: NodeIndex| #[trigger] m.contains_key(k) ==> m[k] > 0,
                it.seq().no_duplicates(),
                forall|i: int| 0 <= i < it.seq().len() ==> m.contains_key(*it.seq()[i].0) && m[*it.seq()[i].0]
                    == *it.seq()[i].1,
                forall|k: NodeIndex| #[trigger] m.contains_key(k) ==> it.seq().contains((&k, &m[k])),
                r@.len() == it.index(),
                forall|i: int| 0 <= i < r@.len() ==> #[trigger] r@[i] == (*it.seq()[i].0, *it.seq()[i].1),
                it.seq().len() == m.dom().len(),
        {
            r.push((*pair.0, *pair.1));
        }
        assert(r@.len() == m.dom().len());
        proof {
            let keys = r@.map_values(|p: (NodeIndex, u32)| p.0);
            assert forall|i: int| 0 <= i < r@.len() implies m.contains_key(#[trigger] r@[i].0) && m[r@[i].0]
                == r@[i].1 by {}
            assert(keys.no_duplicates()) by {
                assert forall|i: int, j: int| 0 <= i < keys.len() && 0 <= j < keys.len() && i != j implies keys[i]
                    != keys[j] by {
                    assert(keys[i] == r@[i].0 && keys[j] == r@[j].0);
                    if keys[i] == keys[j] {
                        assert(r@[i] == r@[j]);
                    }
                }
            }
            assert(pairs_wf(r@)) by {
                assert forall|i: int, j: int| 0 <= i < r@.len() && 0 <= j < r@.len() && i != j implies r@[i].0
                    != r@[j].0 by {
                    assert(keys[i] == r@[i].0 && keys[j] == r@[j].0);
                }
                assert forall|i: int| 0 <= i < r@.len() implies r@[i].1 > 0 by {
                    assert(m.contains_key(r@[i].0));
                }
            }
            keys.unique_seq_to_set();
            assert(keys.to_set().subset_of(m.dom())) by {
                assert forall|k: NodeIndex| keys.to_set().contains(k) implies m.dom().contains(k) by {
                    let i = choose|i: int| 0 <= i < keys.len() && keys[i] == k;
                    assert(keys[i] == r@[i].0);
                }
            }
            assert forall|k: NodeIndex| #![trigger pairs_map(r@).contains_key(k)] #![trigger m.contains_key(k)]
                pairs_map(r@).contains_key(k) == m.contains_key(k) && (m.contains_key(k) ==> pairs_map(
                r@,
            )[k] == m[k]) by {
                if m.contains_key(k) {
                    if !keys.to_set().contains(k) {
                        keys.to_set().lemma_subset_not_in_lt(m.dom(), k);
                        assert(false);
                    }
                    let i = choose|i: int| 0 <= i < keys.len() && keys[i] == k;
                    assert(r@[i].0 == k);
                    lemma_pairs_lookup(r@, i);
                }
                if pairs_map(r@).contains_key(k) {
                    let i = choose|i: int| 0 <= i < r@.len() && r@[i].0 == k;
                    assert(m.contains_key(r@[i].0));
                }
            }
            assert(pairs_map(r@) =~= m);
        }
        r
    }

    /// Return an immutable reference to this node's payload.
    pub fn inner(&self) -> (r: &N)
        ensures
            *r == self@.inner,
    {
        &self.inner
    }

    /// Increment the listen count from another node.
    fn add_listener(&mut self, listener: NodeIndex)
        requires
            old(self).wf(),
            old(self)@.listeners.contains_key(listener) ==> old(self)@.listeners[listener]
                < u32::MAX,
        ensures
            final(self).wf(),
            final(self)@.inputs == old(self)@.inputs,
            final(self)@.inner == old(self)@.inner,
            final(self)@.listeners == old(self)@.listeners.insert(
                listener,
                if old(self)@.listeners.contains_key(listener) {
                    (old(self)@.listeners[listener] + 1) as u32
                } else {
                    1u32
                },
            ),
    {
        broadcast use vstd::std_specs::hash::group_hash_axioms;

        let count = match self.listeners.get(&listener) {
            Some(c) => *c + 1,
            None => 1,
        };
        self.listeners.insert(listener, count);
    }

    /// Decrement the listen count from another node, dropping the listener when its count
    /// reaches zero.  Nothing changes if the listener was not registered.
    fn remove_listener(&mut self, listener: NodeIndex)
        requires
            old(self).wf(),
        ensures
            final(self).wf(),
            final(self)@.inputs == old(self)@.inputs,
            final(self)@.inner == old(self)@.inner,
            final(self)@.listeners == listeners_after_removal(old(self)@.listeners, listener),
    {
        broadcast use vstd::std_specs::hash::group_hash_axioms;

        let count = match self.listeners.get(&listener) {
            Some(c) => Some(*c),
            None => None,
        };
        match count {
            Some(c) => {
                if c <= 1 {
                    self.listeners.remove(&listener);
                } else {
                    self.listeners.insert(listener, c - 1);
                }
            },
            None => {},
        }
    }

    /// Disconnect every input of this node that is connected to `target`.
    fn disconnect_from(&mut self, target: I)
        requires
            old(self).wf(),
        ensures
            final(self).wf(),
            final(self)@.listeners == old(self)@.listeners,
            final(self)@.inner == old(self)@.inner,
            final(self)@.inputs == disconnected(old(self)@.inputs, target),
    {
        let ghost old_inputs = self.inputs@;
        let t_index = target.index();
        let t_gen = target.gen_id();
        let mut k: usize = 0;
        while k < self.inputs.len()
            invariant
                self.wf(),
                self@.listeners == old(self)@.listeners,
                self@.inner == old(self)@.inner,
                old_inputs == old(self)@.inputs,
                t_index == target.spec_index(),
                t_gen == target.spec_gen_id(),
                k <= self.inputs@.len(),
                self.inputs@.len() == old_inputs.len(),
                forall|j: int| 0 <= j < k ==> self.inputs@[j] == disconnected(old_inputs, target)[j],
                forall|j: int| k <= j < self.inputs@.len() ==> self.inputs@[j] == old_inputs[j],
            decreases self.inputs@.len() - k,
        {
            match self.inputs[k] {
                Some(id) => {
                    if id.index() == t_index && id.gen_id() == t_gen {
                        self.inputs.set(k, None);
                    }
                },
                None => {},
            }
            k = k + 1;
        }
        assert(self.inputs@ =~= disconnected(old_inputs, target));
    }

    /// Get the node an input is currently connected to.
    fn input_node(&self, id: InputId) -> (r: Result<Option<I>, NetworkError<I>>)
        ensures
            match r {
                Ok(t) => id < self@.inputs.len() && t == self@.inputs[id as int],
                Err(e) => id >= self@.inputs.len() && e == NetworkError::<I>::InvalidInputId(id),
            },
    {
        if (id as usize) < self.inputs.len() {
            Ok(self.inputs[id as usize])
        } else {
            Err(noinput(id))
        }
    }

    /// Set the node an input is connected to.
    /// The caller must ensure the relevant listener counts are updated.
    fn set_input_node(&mut self, id: InputId, target: Option<I>) -> (r: Result<(), NetworkError<I>>)
        requires
            old(self).wf(),
        ensures
            final(self).wf(),
            final(self)@.listeners == old(self)@.listeners,
            final(self)@.inner == old(self)@.inner,
            match r {
                Ok(()) => id < old(self)@.inputs.len() && final(self)@.inputs == old(
                    self,
                )@.inputs.update(id as int, target),
                Err(e) => id >= old(self)@.inputs.len() && e == NetworkError::<I>::InvalidInputId(
                    id,
                ) && final(self)@.inputs == old(self)@.inputs,
            },
    {
        if (id as usize) < self.inputs.len() {
            self.inputs.set(id as usize, target);
            Ok(())
        } else {
            Err(noinput(id))
        }
    }

    /// Push another input onto this node, if its payload allows it.
    /// The result, and the payload left behind, are those of one call of the payload's
    /// `try_push_input`.
    /// The caller must register this node as a listener of the target.
    fn push_input<M>(&mut self, target: Option<I>) -> (r: Result<(InputId, M), ()>)
        where N: Inputs<M>,
        requires
            old(self).wf(),
        ensures
            final(self).wf(),
            final(self)@.listeners == old(self)@.listeners,
            match r {
                Ok((input_id, _)) => final(self)@.inputs == old(self)@.inputs.push(target)
                    && input_id == old(self)@.inputs.len() as InputId,
                Err(()) => final(self)@.inputs == old(self)@.inputs,
            },
            exists|x: &mut N|
                *x == old(self)@.inner && *final(x) == final(self)@.inner && #[trigger] call_ensures(
                    N::try_push_input,
                    (x,),
                    payload_answer(r),
                ),
    {
        match self.inner.try_push_input() {
            Ok(msg) => {
                self.inputs.push(target);
                Ok((((self.inputs.len() - 1) as InputId), msg))
            },
            Err(e) => Err(e),
        }
    }

    /// Pop the last input off this node, if its payload allows it.
    /// Return what that input was connected to.  A node without inputs refuses at once; otherwise
    /// the result, and the payload left behind, are those of one call of the payload's
    /// `try_pop_input`.
    /// The caller must remove this node as a listener of that node.
    fn pop_input<M>(&mut self) -> (r: Result<(Option<I>, M), ()>)
        where N: Inputs<M>,
        requires
            old(self).wf(),
        ensures
            final(self).wf(),
            final(self)@.listeners == old(self)@.listeners,
            old(self)@.inputs.len() == 0 ==> r is Err && final(self)@ == old(self)@,
            match r {
                Ok((t, _)) => old(self)@.inputs.len() > 0 && final(self)@.inputs == old(
                    self,
                )@.inputs.drop_last() && t == old(self)@.inputs.last(),
                Err(()) => final(self)@.inputs == old(self)@.inputs,
            },
            old(self)@.inputs.len() > 0 ==> exists|x: &mut N|
                *x == old(self)@.inner && *final(x) == final(self)@.inner && #[trigger] call_ensures(
                    N::try_pop_input,
                    (x,),
                    payload_answer(r),
                ),
    {
        if self.inputs.len() == 0 {
            return Err(());
        }
        match self.inner.try_pop_input() {
            Ok(msg) => {
                let target = self.inputs.pop().unwrap();
                Ok((target, msg))
            },
            Err(e) => Err(e),
        }
    }

    /// Return an immutable slice of this node's inputs.
    pub fn inputs(&self) -> (r: &[Option<I>])
        ensures
            r@ == self@.inputs,
    {
        self.inputs.as_slice()
    }
}

/// The payload's answer within the result of a change to a node's inputs.
pub open spec fn payload_answer<T, M>(r: Result<(T, M), ()>) -> Result<M, ()> {
    match r {
        Ok((_, msg)) => Ok(msg),
        Err(e) => Err(e),
    }
}

/// A slot of a network: a generation ID and possibly a node.
struct NodeSlot<N, I> {
    gen_id: GenerationId,
    node: Option<Node<N, I>>,
}

spec fn slot_view<N, I: NodeId>(s: NodeSlot<N, I>) -> SlotView<N, I> {
    SlotView {
        gen_id: s.gen_id,
        node: match s.node {
            Some(n) => Some(n@),
            None => None,
        },
    }
}

/// A dataflow network of nodes with payloads of type N, named by identifiers of type I, whose
/// payloads hand out messages of type M when their inputs change.
pub struct Network<N, I, M> {
    /// Node slots, indexed by their ID.  Indices are stable under insertion and deletion.
    /// Generation IDs are incremented when an empty slot is filled.
    slots: Vec<NodeSlot<N, I>>,
    _message_type: PhantomData<M>,
}

impl<N, I: NodeId, M> View for Network<N, I, M> {
    type V = Seq<SlotView<N, I>>;

    closed spec fn view(&self) -> Seq<SlotView<N, I>> {
        self.slots@.map_values(|s: NodeSlot<N, I>| slot_view(s))
    }
}

impl<N, I: NodeId, M> Network<N, I, M> {
    /// Consistency of the network: structural consistency of its view, and of every node's
    /// listener list.
    pub open spec fn wf(&self) -> bool {
        &&& network_wf(self@)
        &&& self.nodes_wf()
    }

    /// Every node's listener list is consistent.
    pub closed spec fn nodes_wf(&self) -> bool {
        forall|i: int|
            0 <= i < self.slots@.len() && #[trigger] self.slots@[i].node is Some
                ==> self.slots@[i].node->0.wf()
    }

    /// Create a new, empty network.
    pub fn new() -> (r: Self)
        ensures
            r.wf(),
            r@ == Seq::<SlotView<N, I>>::empty(),
    {
        let r = Network { slots: Vec::new(), _message_type: PhantomData };
        assert(r@ =~= Seq::<SlotView<N, I>>::empty());
        r
    }

    /// Return Ok if this node ID names a node of this network.
    pub fn node_exists(&self, id: I) -> (r: Result<(), NetworkError<I>>)
        requires
            self.wf(),
        ensures
            match r {
                Ok(()) => id_valid(self@, id),
                Err(e) => !id_valid(self@, id) && e == lookup_error(self@, id),
            },
    {
        match self.node(id) {
            Ok(_) => Ok(()),
            Err(e) => Err(e),
        }
    }

    /// Get an immutable reference to a node, if it exists.
    pub fn node(&self, id: I) -> (r: Result<&Node<N, I>, NetworkError<I>>)
        requires
            self.wf(),
        ensures
            match r {
                Ok(n) => id_valid(self@, id) && n@ == node_at(self@, id.spec_index() as int)
                    && n.wf(),
                Err(e) => !id_valid(self@, id) && e == lookup_error(self@, id),
            },
    {
        let index = id.index() as usize;
        if index >= self.slots.len() {
            return Err(nonode(id));
        }
        let slot = &self.slots[index];
        match &slot.node {
            None => Err(nonode(id)),
            Some(node) => {
                if slot.gen_id != id.gen_id() {
                    Err(oldgen(id))
                } else {
                    Ok(node)
                }
            },
        }
    }

    /// Get an immutable reference to a node's payload, if that node exists.
    pub fn node_inner(&self, id: I) -> (r: Result<&N, NetworkError<I>>)
        requires
            self.wf(),
        ensures
            match r {
                Ok(n) => id_valid(self@, id) && *n == node_at(self@, id.spec_index() as int).inner,
                Err(e) => !id_valid(self@, id) && e == lookup_error(self@, id),
            },
    {
        match self.node(id) {
            Ok(n) => Ok(n.inner()),
            Err(e) => Err(e),
        }
    }

    /// Get a mutable reference to a node, if it exists.
    fn node_mut(&mut self, id: I) -> (r: Result<&mut Node<N, I>, NetworkError<I>>)
        requires
            old(self).nodes_wf(),
        ensures
            match r {
                Ok(n) => id_valid(old(self)@, id) && *n == old(
                    self,
                ).slots@[id.spec_index() as int].node->0 && n.wf() && final(self).slots@ == old(
                    self,
                ).slots@.update(
                    id.spec_index() as int,
                    NodeSlot {
                        gen_id: old(self).slots@[id.spec_index() as int].gen_id,
                        node: Some(*final(n)),
                    },
                ),
                Err(e) => !id_valid(old(self)@, id) && e == lookup_error(old(self)@, id)
                    && final(self).slots@ == old(self).slots@,
            },
    {
        let index = id.index() as usize;
        let ghost v = self@;
        if index >= self.slots.len() {
            return Err(nonode(id));
        }
        let gen = self.slots[index].gen_id;
        match &mut self.slots[index].node {
            None => Err(nonode(id)),
            Some(node) => {
                if gen != id.gen_id() {
                    Err(oldgen(id))
                } else {
                    Ok(node)
                }
            },
        }
    }

    /// Get a mutable reference to a node at a slot, whatever its generation, if it exists.
    fn node_direct_mut(&mut self, index: NodeIndex) -> (r: Result<&mut Node<N, I>, NetworkError<I>>)
        requires
            old(self).nodes_wf(),
        ensures
            match r {
                Ok(n) => live(old(self)@, index as int) && *n == old(self).slots@[index as int].node->0
                    && n.wf() && final(self).slots@ == old(self).slots@.update(
                    index as int,
                    NodeSlot { gen_id: old(self).slots@[index as int].gen_id, node: Some(*final(n)) },
                ),
                Err(e) => !live(old(self)@, index as int) && final(self).slots@ == old(self).slots@,
            },
    {
        let i = index as usize;
        if i >= self.slots.len() {
            return Err(nonode(I::new(index, 0)));
        }
        match &mut self.slots[i].node {
            None => Err(nonode(I::new(index, 0))),
            Some(node) => Ok(node),
        }
    }

    /// Get a mutable reference to a node's payload, if that node exists.
    #[verifier::spinoff_prover]
    #[verifier::rlimit(40)]
    pub fn node_inner_mut(&mut self, id: I) -> (r: Result<&mut N, NetworkError<I>>)
        requires
            old(self).wf(),
        ensures
            final(self).nodes_wf(),
            match r {
                Ok(n) => id_valid(old(self)@, id) && *n == node_at(
                    old(self)@,
                    id.spec_index() as int,
                ).inner && final(self)@ =~= with_inner(old(self)@, id.spec_index() as int, *final(n)),
                Err(e) => !id_valid(old(self)@, id) && e == lookup_error(old(self)@, id)
                    && final(self)@ == old(self)@,
            },
            network_wf(final(self)@),
    {
        let ghost v = self@;
        let index = id.index() as usize;
        if index >= self.slots.len() {
            return Err(nonode(id));
        }
        let gen = self.slots[index].gen_id;
        if self.slots[index].node.is_none() {
            return Err(nonode(id));
        }
        if gen != id.gen_id() {
            return Err(oldgen(id));
        }
        proof {
            lemma_inner_irrelevant(v, index as int);
        }
        match &mut self.slots[index].node {
            None => Err(nonode(id)),
            Some(node) => {
                let r = &mut node.inner;
                proof {
                    assert(network_wf(with_inner(v, index as int, *final(r))));
                }
                Ok(r)
            },
        }
    }

    /// Apply a mutating function to every node's payload, in slot order, passing in the node's
    /// identifier.  Only payloads change: each node's payload is what one call of the function,
    /// on that node's identifier and its former payload, left behind.
    pub fn map_inner<F>(&mut self, mut func: F)
        where F: FnMut(I, &mut N),
        requires
            old(self).wf(),
            forall|id: I, n: &mut N| call_requires(func, (id, n)),
        ensures
            final(self).wf(),
            final(self)@.len() == old(self)@.len(),
            forall|i: int|
                0 <= i < old(self)@.len() ==> #[trigger] final(self)@[i].gen_id == old(self)@[i].gen_id
                    && (final(self)@[i].node is Some <==> old(self)@[i].node is Some),
            forall|i: int|
                #[trigger] live(old(self)@, i) ==> node_at(final(self)@, i).inputs == node_at(
                    old(self)@,
                    i,
                ).inputs && node_at(final(self)@, i).listeners == node_at(old(self)@, i).listeners,
            forall|i: int| #[trigger] live(old(self)@, i) ==> exists|id: I, x: &mut N|
                id.spec_index() == i && id.spec_gen_id() == old(self)@[i].gen_id && *x == node_at(
                    old(self)@,
                    i,
                ).inner && *final(x) == node_at(final(self)@, i).inner && #[trigger] call_ensures(
                    func,
                    (id, x),
                    (),
                ),
    {
        let ghost v = self@;
        let ghost f = func;
        let mut i: usize = 0;
        while i < self.slots.len()
            invariant
                func == f,
                self.nodes_wf(),
                network_wf(self@),
                forall|id: I, n: &mut N| call_requires(func, (id, n)),
                self@.len() == v.len(),
                forall|k: int|
                    0 <= k < v.len() ==> #[trigger] self@[k].gen_id == v[k].gen_id && (self@[k].node is Some
                        <==> v[k].node is Some),
                forall|k: int|
                    #[trigger] live(v, k) ==> node_at(self@, k).inputs == node_at(v, k).inputs
                        && node_at(self@, k).listeners == node_at(v, k).listeners,
                forall|k: int| 0 <= k < i && #[trigger] live(v, k) ==> exists|id: I, x: &mut N|
                    id.spec_index() == k && id.spec_gen_id() == v[k].gen_id && *x == node_at(v, k).inner
                        && *final(x) == node_at(self@, k).inner && #[trigger] call_ensures(
                        func,
                        (id, x),
                        (),
                    ),
                forall|k: int|
                    i <= k < v.len() && #[trigger] live(v, k) ==> node_at(self@, k).inner == node_at(
                        v,
                        k,
                    ).inner,
            decreases self.slots@.len() - i,
        {
            let ghost before = self@;
            let gen = self.slots[i].gen_id;
            match &mut self.slots[i].node {
                Some(node) => {
                    proof {
                        lemma_inner_irrelevant(before, i as int);
                    }
                    func(I::new(i as NodeIndex, gen), &mut node.inner);
                },
                None => {},
            }
            proof {
                if before[i as int].node is Some {
                    let nn = self.slots@[i as int].node->0;
                    assert(self@ =~= with_inner(before, i as int, nn.inner));
                } else {
                    assert(self@ =~= before);
                }
            }
            i = i + 1;
        }
    }

    /// Insert a new node into this network, in the first empty slot if there is one.
    /// Return its ID along with an immutable reference to it.
    pub fn add(&mut self, node_contents: N) -> (r: (I, &Node<N, I>))
        where N: Inputs<M>,
        requires
            old(self).wf(),
            old(self)@.len() < u32::MAX,
            forall|i: int|
                0 <= i < old(self)@.len() && #[trigger] old(self)@[i].node is None ==> old(
                    self,
                )@[i].gen_id < u32::MAX,
        ensures
            acyclic(old(self)@) ==> acyclic(final(self)@),
            id_valid(final(self)@, r.0),
            final(self).wf(),
            ({
                let idx = r.0.spec_index() as int;
                &&& forall|j: int| 0 <= j < idx ==> #[trigger] live(old(self)@, j)
                &&& idx < old(self)@.len() ==> !live(old(self)@, idx) && final(self)@.len()
                    == old(self)@.len() && r.0.spec_gen_id() == old(self)@[idx].gen_id + 1
                &&& idx >= old(self)@.len() ==> idx == old(self)@.len() && final(self)@.len()
                    == old(self)@.len() + 1 && r.0.spec_gen_id() == 0
                &&& final(self)@[idx].gen_id == r.0.spec_gen_id()
                &&& live(final(self)@, idx)
                &&& node_at(final(self)@, idx).listeners == Map::<NodeIndex, u32>::empty()
                &&& forall|k: int|
                    0 <= k < node_at(final(self)@, idx).inputs.len() ==> node_at(
                        final(self)@,
                        idx,
                    ).inputs[k] is None
                &&& node_at(final(self)@, idx).inner == node_contents
                &&& call_ensures(
                    N::default_input_count,
                    (&node_contents,),
                    node_at(final(self)@, idx).inputs.len() as u32,
                )
                &&& forall|j: int| 0 <= j < old(self)@.len() && j != idx ==> final(self)@[j] == old(
                    self,
                )@[j]
                &&& r.1@ == node_at(final(self)@, idx)
            }),
    {
        let node: Node<N, I> = Node::new(node_contents);
        let ghost v = self@;
        let mut i: usize = 0;
        while i < self.slots.len() && self.slots[i].node.is_some()
            invariant
                i <= self.slots@.len(),
                v == self@,
                forall|j: int| 0 <= j < i ==> #[trigger] live(v, j),
            decreases self.slots@.len() - i,
        {
            i = i + 1;
        }
        proof {
            lemma_fresh_slot_unreferenced(v, i as int);
        }
        if i < self.slots.len() {
            {
                let index = i;
                proof {
                    assert(self@[index as int] == slot_view(self.slots@[index as int]));
                    assert(!live(v, index as int));
                }
                let gen = self.slots[index].gen_id + 1;
                self.slots.set(index, NodeSlot { gen_id: gen, node: Some(node) });
                proof {
                    lemma_add_keeps_wf(v, self@, index as int);
                    lemma_add_edges(v, self@, index as int);
                }
                let id = I::new(index as NodeIndex, gen);
                (id, self.slots[index].node.as_ref().unwrap())
            }
        } else {
            {
                self.slots.push(NodeSlot { gen_id: 0, node: Some(node) });
                let index = self.slots.len() - 1;
                proof {
                    lemma_add_keeps_wf(v, self@, index as int);
                    lemma_add_edges(v, self@, index as int);
                }
                let id = I::new(index as NodeIndex, 0);
                (id, self.slots[index].node.as_ref().unwrap())
            }
        }
    }

    /// Return true if the node at `node_to_find` is downstream of the node at `node_to_check`,
    /// that is, among its listeners, their listeners, and so on.
    pub fn node_among_listeners(&self, node_to_check: NodeIndex, node_to_find: NodeIndex) -> (r: bool)
        requires
            self.wf(),
        ensures
            r == reaches(self@, node_to_check as int, node_to_find as int),
    {
        let ghost v = self@;
        let n = self.slots.len();
        let mut visited: Vec<bool> = Vec::new();
        while visited.len() < n
            invariant
                visited@.len() <= n,
                n == v.len(),
                forall|i: int| 0 <= i < visited@.len() ==> !visited@[i],
            decreases n - visited@.len(),
        {
            visited.push(false);
        }
        let mut stack: Vec<NodeIndex> = Vec::new();
        match self.node_direct(node_to_check) {
            Err(_) => {
                proof {
                    if reaches(v, node_to_check as int, node_to_find as int) {
                        let x = lemma_reaches_last_edge(v, node_to_check as int, node_to_find as int);
                        if x == node_to_check as int {
                            lemma_no_edge_from_dead(v, x, node_to_find as int);
                        } else {
                            let y = lemma_first_edge(v, node_to_check as int, x);
                            lemma_no_edge_from_dead(v, node_to_check as int, y);
                        }
                    }
                }
                return false;
            },
            Ok(node) => {
                let ls = node.listener_list();
                let mut j: usize = 0;
                while j < ls.len()
                    invariant
                        self.wf(),
                        v == self@,
                        node.wf(),
                        node@ == node_at(v, node_to_check as int),
                        live(v, node_to_check as int),
                        pairs_wf(ls@),
                        pairs_map(ls@) == node@.listeners,
                        j <= ls@.len(),
                        stack@.len() == j,
                        forall|i: int| 0 <= i < j ==> stack@[i] == ls@[i].0,
                    decreases ls@.len() - j,
                {
                    stack.push(ls[j].0);
                    j = j + 1;
                }
                proof {
                    assert forall|i: int| 0 <= i < stack@.len() implies 0 <= #[trigger] stack@[i] < n
                        && reaches(v, node_to_check as int, stack@[i] as int) by {
                        lemma_pairs_lookup(ls@, i);
                        lemma_edge_listener(v, node_to_check as int, stack@[i] as int);
                        lemma_edge_reaches(v, node_to_check as int, stack@[i] as int);
                    }
                    assert forall|b: int| #[trigger] edge(v, node_to_check as int, b) implies stack@.contains(
                        b as NodeIndex,
                    ) by {
                        lemma_edge_listener(v, node_to_check as int, b);
                        let i = choose|i: int|
                            0 <= i < ls@.len() && ls@[i].0 == b as u32;
                        assert(stack@[i] == b as u32);
                    }
                }
            },
        }
        while stack.len() > 0
            invariant
                self.wf(),
                v == self@,
                n == v.len(),
                visited@.len() == n,
                forall|i: int| 0 <= i < stack@.len() ==> 0 <= #[trigger] stack@[i] < n
                    && reaches(v, node_to_check as int, stack@[i] as int),
                forall|i: int| 0 <= i < n && #[trigger] visited@[i] ==> reaches(v, node_to_check as int, i)
                    && i != node_to_find as int,
                forall|b: int| #[trigger] edge(v, node_to_check as int, b) ==> (0 <= b < n && visited@[b])
                    || stack@.contains(b as NodeIndex),
                forall|i: int, b: int|
                    0 <= i < n && visited@[i] && #[trigger] edge(v, i, b) ==> (0 <= b < n && visited@[b])
                        || stack@.contains(b as NodeIndex),
            decreases count_false(visited@), stack@.len(),
        {
            let ghost before = stack@;
            let u = stack.pop().unwrap();
            let ghost popped = stack@;
            proof {
                assert(popped =~= before.drop_last());
                assert(u == before.last());
                assert forall|i: int| 0 <= i < popped.len() implies popped[i] == before[i] by {}
            }
            if u == node_to_find {
                return true;
            }
            if !visited[u as usize] {
                proof {
                    lemma_count_false_update(visited@, u as int);
                }
                visited.set(u as usize, true);
                match self.node_direct(u) {
                    Err(_) => {
                        proof {
                            assert forall|b: int| !edge(v, u as int, b) by {
                                lemma_no_edge_from_dead(v, u as int, b);
                            }
                        }
                    },
                    Ok(node) => {
                        let ls = node.listener_list();
                        let mut j: usize = 0;
                        while j < ls.len()
                            invariant
                                self.wf(),
                                v == self@,
                                node.wf(),
                                node@ == node_at(v, u as int),
                                live(v, u as int),
                                pairs_wf(ls@),
                                pairs_map(ls@) == node@.listeners,
                                j <= ls@.len(),
                                stack@.len() == popped.len() + j,
                                forall|i: int| 0 <= i < popped.len() ==> stack@[i] == popped[i],
                                forall|i: int|
                                    0 <= i < j ==> stack@[popped.len() + i] == ls@[i].0,
                            decreases ls@.len() - j,
                        {
                            stack.push(ls[j].0);
                            j = j + 1;
                        }
                        proof {
                            assert forall|i: int| 0 <= i < j implies 0 <= #[trigger] ls@[i].0
                                < n && edge(v, u as int, ls@[i].0 as int) by {
                                lemma_pairs_lookup(ls@, i);
                                lemma_edge_listener(v, u as int, ls@[i].0 as int);
                            }
                            assert forall|b: int| #[trigger] edge(v, u as int, b) implies stack@.contains(
                                b as NodeIndex,
                            ) by {
                                lemma_edge_listener(v, u as int, b);
                                let i = choose|i: int|
                                    0 <= i < ls@.len() && ls@[i].0 == b as u32;
                                assert(stack@[popped.len() + i] == b as u32);
                            }
                            assert forall|i: int| 0 <= i < stack@.len() implies 0 <= #[trigger] stack@[i] < n
                                && reaches(v, node_to_check as int, stack@[i] as int) by {
                                if i >= popped.len() {
                                    let j2 = i - popped.len();
                                    assert(stack@[i] == ls@[j2].0);
                                    assert(edge(v, u as int, ls@[j2].0 as int));
                                    assert(0 <= before[before.len() - 1] < n);
                                    lemma_reaches_step(v, node_to_check as int, u as int, stack@[i] as int);
                                } else {
                                    assert(stack@[i] == before[i]);
                                }
                            }
                        }
                    },
                }
            }
            proof {
                assert forall|b: int| #[trigger] edge(v, node_to_check as int, b) implies (0 <= b < n
                    && visited@[b]) || stack@.contains(b as NodeIndex) by {
                    if !(0 <= b < n && visited@[b]) && b != u as int {
                        assert(before.contains(b as NodeIndex));
                        let i = choose|i: int| 0 <= i < before.len() && before[i] == b as NodeIndex;
                        assert(i < popped.len());
                        assert(stack@[i] == popped[i]);
                    }
                }
                assert forall|i: int, b: int|
                    0 <= i < n && visited@[i] && #[trigger] edge(v, i, b) implies (0 <= b < n && visited@[b])
                        || stack@.contains(b as NodeIndex) by {
                    if !(0 <= b < n && visited@[b]) && b != u as int && i != u as int {
                        assert(before.contains(b as NodeIndex));
                        let k = choose|k: int| 0 <= k < before.len() && before[k] == b as NodeIndex;
                        assert(k < popped.len());
                        assert(stack@[k] == popped[k]);
                    }
                }
            }
        }
        proof {
            if reaches(v, node_to_check as int, node_to_find as int) {
                let p = choose|p: Seq<int>|
                    #[trigger] is_path(v, p) && p[0] == node_to_check as int && p.last() == node_to_find as int;
                lemma_closed_contains_reach(v, node_to_check as int, visited@, p);
            }
        }
        false
    }

    /// Return an error if connecting `source_id` to an input of `sink_id` would create a cycle.
    /// Also serves to validate the existence of both nodes.
    pub fn check_would_cycle(&self, source_id: I, sink_id: I) -> (r: Result<(), NetworkError<I>>)
        requires
            self.wf(),
        ensures
            r == cycle_check(self@, source_id, sink_id),
    {
        if source_id.index() == sink_id.index() && source_id.gen_id() == sink_id.gen_id() {
            return Err(NetworkError::WouldCycle { source: source_id, sink: sink_id });
        }
        let ghost v = self@;
        let sink = match self.node(sink_id) {
            Ok(n) => n,
            Err(e) => return Err(e),
        };
        let source = match self.node(source_id) {
            Ok(n) => n,
            Err(e) => return Err(e),
        };
        let si = sink_id.index();
        let so = source_id.index();
        if !sink.has_listeners() {
            proof {
                if reaches(v, si as int, so as int) {
                    let y = lemma_first_edge(v, si as int, so as int);
                    lemma_edge_listener(v, si as int, y);
                    assert(sink@.listeners.dom().contains(y as u32));
                }
            }
            return Ok(());
        }
        let mut all_none = true;
        let mut k: usize = 0;
        while k < source.inputs.len()
            invariant
                k <= source.inputs@.len(),
                all_none == forall|j: int| 0 <= j < k ==> source.inputs@[j] is None,
            decreases source.inputs@.len() - k,
        {
            if source.inputs[k].is_some() {
                all_none = false;
            }
            k = k + 1;
        }
        if all_none {
            proof {
                if reaches(v, si as int, so as int) {
                    let x = lemma_reaches_last_edge(v, si as int, so as int);
                    let j = lemma_count_refs_pos(node_at(v, so as int).inputs, x);
                    assert(source@.inputs[j] is None);
                }
            }
            return Ok(());
        }
        if self.node_among_listeners(si, so) {
            return Err(NetworkError::WouldCycle { source: source_id, sink: sink_id });
        }
        Ok(())
    }

    /// Connect an input of a node to a target, or disconnect it when the target is None.
    /// The node is unregistered as a listener of whatever that input was connected to, and
    /// registered as a listener of the new target.  Fail, changing nothing, if the connection
    /// would create a cycle.
    pub fn swap_input(&mut self, node_id: I, input_id: InputId, target: Option<I>) -> (r: Result<
        (),
        NetworkError<I>,
    >)
        requires
            old(self).wf(),
        ensures
            acyclic(old(self)@) && r is Ok ==> acyclic(final(self)@),
            final(self).wf(),
            r == swap_input_result(old(self)@, node_id, input_id, target),
            r is Ok ==> inputs_changed(
                old(self)@,
                final(self)@,
                node_id.spec_index() as int,
                node_at(old(self)@, node_id.spec_index() as int).inputs.update(input_id as int, target),
            ) && node_at(final(self)@, node_id.spec_index() as int).inner == node_at(
                old(self)@,
                node_id.spec_index() as int,
            ).inner,
            r is Err ==> final(self)@ == old(self)@,
    {
        let ghost v = self@;
        if let Some(t) = target {
            match self.check_would_cycle(t, node_id) {
                Ok(()) => {},
                Err(e) => return Err(e),
            }
        }
        let current = match self.node(node_id) {
            Ok(node) => match node.input_node(input_id) {
                Ok(c) => c,
                Err(e) => return Err(e),
            },
            Err(e) => return Err(e),
        };
        let ni = node_id.index();
        let ghost n = ni as int;
        let ghost k = input_id as int;
        proof {
            assert(live(v, n));
            assert(inputs_valid(v, node_at(v, n).inputs));
            assert(self.slots@[n].node is Some);
            if let Some(t) = target {
                assert(id_valid(v, t));
                assert(t.spec_index() != ni);
            }
        }
        if let Some(c) = current {
            proof {
                assert(node_at(v, n).inputs[k] is Some);
                assert(id_valid(v, c));
            }
            match self.node_mut(c) {
                Ok(input_node) => input_node.remove_listener(ni),
                Err(_) => {},
            }
            proof {
                assert(self@ =~= v.update(c.spec_index() as int, slot_view(self.slots@[c.spec_index() as int])));
            }
        }
        let ghost v1 = self@;
        proof {
            assert(forall|i: int| 0 <= i < v.len() ==> #[trigger] v1[i].gen_id == v[i].gen_id);
            assert(forall|i: int| #[trigger] live(v1, i) <==> live(v, i));
            assert(node_at(v1, n).inputs == node_at(v, n).inputs);
            assert(self.nodes_wf());
        }
        if let Some(t) = target {
            proof {
                let ti = t.spec_index() as int;
                assert(id_valid(v1, t));
                let inputs = node_at(v, n).inputs;
                lemma_count_refs_bound(inputs, ti, k);
                assert(live(v, ti));
                assert(listeners_exact(v, ti));
                if node_at(v1, ti).listeners.contains_key(ni) {
                    if let Some(c) = current {
                        if c.spec_index() as int == ti {
                            assert(node_at(v, ti).listeners.contains_key(ni));
                        } else {
                            assert(node_at(v1, ti) == node_at(v, ti));
                        }
                    } else {
                        assert(node_at(v1, ti) == node_at(v, ti));
                    }
                }
            }
            match self.node_mut(t) {
                Ok(tn) => tn.add_listener(ni),
                Err(e) => return Err(e),
            }
            proof {
                assert(self@ =~= v1.update(t.spec_index() as int, slot_view(self.slots@[t.spec_index() as int])));
            }
        }
        let ghost v2 = self@;
        proof {
            assert(self.nodes_wf());
        }
        match self.node_mut(node_id) {
            Ok(node) => match node.set_input_node(input_id, target) {
                Ok(()) => {},
                Err(e) => return Err(e),
            },
            Err(e) => return Err(e),
        }
        proof {
            assert(self@ =~= v2.update(n, slot_view(self.slots@[n])));
            lemma_swap_wf(v, self@, n, k, current, target);
            let w = self@;
            let new_inputs = node_at(v, n).inputs.update(k, target);
            lemma_changed_edges(v, w, n, new_inputs);
            assert forall|a: int| #[trigger] count_refs(new_inputs, a) > 0 implies edge(v, a, n)
                || (target is Some && a == target->0.spec_index()) by {
                lemma_count_refs_update(node_at(v, n).inputs, k, target, a);
            }
            if acyclic(v) {
                match target {
                    Some(t) => {
                        assert(!reaches(v, n, t.spec_index() as int));
                        assert(t.spec_index() != ni);
                        lemma_acyclic_new_edge(v, w, t.spec_index() as int, n);
                    },
                    None => {
                        lemma_acyclic_subgraph(v, w);
                    },
                }
            }
        }
        Ok(())
    }

    /// Push a new input onto a node, if its payload allows it, connected to `target`.
    /// Return the new input ID and the message the payload handed out.
    pub fn push_input(&mut self, node_id: I, target: Option<I>) -> (r: Result<
        (InputId, M),
        NetworkError<I>,
    >)
        where N: Inputs<M>,
        requires
            old(self).wf(),
            id_valid(old(self)@, node_id) ==> node_at(old(self)@, node_id.spec_index() as int).inputs.len()
                < u32::MAX,
        ensures
            acyclic(old(self)@) && r is Ok && (target is None || (target->0.spec_index()
                != node_id.spec_index() && !reaches(
                old(self)@,
                node_id.spec_index() as int,
                target->0.spec_index() as int,
            ))) ==> acyclic(final(self)@),
            final(self).wf(),
            ({
                let n = node_id.spec_index() as int;
                let v = old(self)@;
                let w = final(self)@;
                if target is Some && !id_valid(v, target->0) {
                    r == Err::<(InputId, M), _>(lookup_error(v, target->0)) && w == v
                } else if !id_valid(v, node_id) {
                    r == Err::<(InputId, M), _>(lookup_error(v, node_id)) && w == v
                } else {
                    match r {
                        Ok((input_id, _)) => input_id == node_at(v, n).inputs.len() && inputs_changed(
                            v,
                            w,
                            n,
                            node_at(v, n).inputs.push(target),
                        ),
                        Err(e) => e == NetworkError::CantAddInput(node_id) && w == with_inner(
                            v,
                            n,
                            node_at(w, n).inner,
                        ),
                    }
                }
            }),
            (target is None || id_valid(old(self)@, target->0)) && id_valid(old(self)@, node_id)
                ==> exists|x: &mut N, answer: Result<M, ()>|
                *x == node_at(old(self)@, node_id.spec_index() as int).inner && *final(x) == node_at(
                    final(self)@,
                    node_id.spec_index() as int,
                ).inner && #[trigger] call_ensures(N::try_push_input, (x,), answer) && (answer is Ok
                    <==> r is Ok) && (r matches Ok((_, msg)) ==> answer == Ok::<M, ()>(msg)),
    {
        let ghost v = self@;
        if let Some(t) = target {
            match self.node_exists(t) {
                Ok(()) => {},
                Err(e) => return Err(e),
            }
        }
        let ghost n = node_id.spec_index() as int;
        let ni = node_id.index();
        let pushed = match self.node_mut(node_id) {
            Ok(node) => node.push_input(target),
            Err(e) => return Err(e),
        };
        proof {
            assert(self@ =~= v.update(n, slot_view(self.slots@[n])));
            assert(self.nodes_wf());
        }
        let ghost v1 = self@;
        match pushed {
            Ok(x) => {
                if let Some(t) = target {
                    proof {
                        let ti = t.spec_index() as int;
                        assert(id_valid(v1, t));
                        lemma_count_refs_bound(node_at(v, n).inputs, ti, 0);
                        assert(live(v, ti));
                        assert(listeners_exact(v, ti));
                        if node_at(v1, ti).listeners.contains_key(ni) {
                            assert(node_at(v, ti).listeners.contains_key(ni));
                        }
                    }
                    match self.node_mut(t) {
                        Ok(tn) => tn.add_listener(ni),
                        Err(e) => return Err(e),
                    }
                    proof {
                        assert(self@ =~= v1.update(t.spec_index() as int, slot_view(self.slots@[t.spec_index() as int])));
                    }
                }
                proof {
                    let w = self@;
                    let new_inputs = node_at(v, n).inputs.push(target);
                    assert(node_at(w, n).inputs == new_inputs);
                    assert forall|a: int| #[trigger] live(v, a) implies ({
                        let mw = node_at(w, a).listeners;
                        let mv = node_at(v, a).listeners;
                        &&& forall|b: NodeIndex| b != ni ==> (#[trigger] mw.contains_key(b) == mv.contains_key(b)
                            && (mv.contains_key(b) ==> mw[b] == mv[b]))
                        &&& mw.contains_key(ni) <==> count_refs(new_inputs, a) > 0
                        &&& mw.contains_key(ni) ==> mw[ni] == count_refs(new_inputs, a)
                    }) by {
                        lemma_count_refs_push(node_at(v, n).inputs, target, a);
                        lemma_count_refs_bound(new_inputs, a, 0);
                        assert(listeners_exact(v, a));
                        assert(node_at(v, a).listeners.contains_key(ni) <==> edge(v, a, n));
                    }
                    lemma_reconnect_wf(v, w, n, new_inputs);
                    lemma_changed_edges(v, w, n, new_inputs);
                    assert forall|a: int| #[trigger] count_refs(new_inputs, a) > 0 implies edge(v, a, n)
                        || (target is Some && a == target->0.spec_index()) by {
                        lemma_count_refs_push(node_at(v, n).inputs, target, a);
                    }
                    if acyclic(v) {
                        match target {
                            Some(t) => {
                                if t.spec_index() != ni && !reaches(v, n, t.spec_index() as int) {
                                    lemma_acyclic_new_edge(v, w, t.spec_index() as int, n);
                                }
                            },
                            None => {
                                lemma_acyclic_subgraph(v, w);
                            },
                        }
                    }
                }
                Ok(x)
            },
            Err(()) => {
                proof {
                    assert(self@ =~= with_inner(v, n, node_at(self@, n).inner));
                    lemma_inner_irrelevant(v, n);
                    assert(network_wf(with_inner(v, n, node_at(self@, n).inner)));
                    assert forall|a: int, b: int| #[trigger] edge(self@, a, b) implies edge(v, a, b) by {
                        assert(live(v, b));
                    }
                    if acyclic(v) {
                        lemma_acyclic_subgraph(v, self@);
                    }
                }
                Err(NetworkError::CantAddInput(node_id))
            },
        }
    }

    /// Pop the last input off a node, if its payload allows it, unregistering the node as a
    /// listener of whatever that input was connected to.
    /// Return the message the payload handed out.
    pub fn pop_input(&mut self, node_id: I) -> (r: Result<M, NetworkError<I>>)
        where N: Inputs<M>,
        requires
            old(self).wf(),
        ensures
            acyclic(old(self)@) ==> acyclic(final(self)@),
            final(self).wf(),
            ({
                let n = node_id.spec_index() as int;
                let v = old(self)@;
                let w = final(self)@;
                if !id_valid(v, node_id) {
                    r == Err::<M, _>(lookup_error(v, node_id)) && w == v
                } else if node_at(v, n).inputs.len() == 0 {
                    r == Err::<M, _>(NetworkError::CantRemoveInput(node_id)) && w == v
                } else {
                    match r {
                        Ok(_) => inputs_changed(v, w, n, node_at(v, n).inputs.drop_last()),
                        Err(e) => e == NetworkError::CantRemoveInput(node_id) && w == with_inner(
                            v,
                            n,
                            node_at(w, n).inner,
                        ),
                    }
                }
            }),
            id_valid(old(self)@, node_id) && node_at(old(self)@, node_id.spec_index() as int).inputs.len()
                > 0 ==> exists|x: &mut N, answer: Result<M, ()>|
                *x == node_at(old(self)@, node_id.spec_index() as int).inner && *final(x) == node_at(
                    final(self)@,
                    node_id.spec_index() as int,
                ).inner && #[trigger] call_ensures(N::try_pop_input, (x,), answer) && (answer is Ok
                    <==> r is Ok) && (r matches Ok(msg) ==> answer == Ok::<M, ()>(msg)),
    {
        let ghost v = self@;
        let ghost n = node_id.spec_index() as int;
        let ni = node_id.index();
        let popped = match self.node_mut(node_id) {
            Ok(node) => node.pop_input(),
            Err(e) => return Err(e),
        };
        proof {
            assert(self@ =~= v.update(n, slot_view(self.slots@[n])));
            assert(self.nodes_wf());
        }
        let ghost v1 = self@;
        match popped {
            Ok((target, msg)) => {
                proof {
                    assert(live(v, n));
                    assert(inputs_valid(v, node_at(v, n).inputs));
                    let last = node_at(v, n).inputs.len() - 1;
                    assert(node_at(v, n).inputs[last] == target);
                }
                if let Some(t) = target {
                    proof {
                        assert(id_valid(v1, t));
                    }
                    match self.node_mut(t) {
                        Ok(tn) => tn.remove_listener(ni),
                        Err(_) => {},
                    }
                    proof {
                        assert(self@ =~= v1.update(t.spec_index() as int, slot_view(self.slots@[t.spec_index() as int])));
                    }
                }
                proof {
                    let w = self@;
                    let old_inputs = node_at(v, n).inputs;
                    let new_inputs = old_inputs.drop_last();
                    assert(node_at(w, n).inputs == new_inputs);
                    assert forall|a: int| #[trigger] live(v, a) implies ({
                        let mw = node_at(w, a).listeners;
                        let mv = node_at(v, a).listeners;
                        &&& forall|b: NodeIndex| b != ni ==> (#[trigger] mw.contains_key(b) == mv.contains_key(b)
                            && (mv.contains_key(b) ==> mw[b] == mv[b]))
                        &&& mw.contains_key(ni) <==> count_refs(new_inputs, a) > 0
                        &&& mw.contains_key(ni) ==> mw[ni] == count_refs(new_inputs, a)
                    }) by {
                        assert(count_refs(old_inputs, a) == count_refs(new_inputs, a) + ref_count(
                            old_inputs.last(),
                            a,
                        ));
                        assert(listeners_exact(v, a));
                        assert(node_at(v, a).listeners.contains_key(ni) <==> edge(v, a, n));
                    }
                    assert(inputs_valid(v, new_inputs)) by {
                        assert forall|j: int|
                            0 <= j < new_inputs.len() && #[trigger] new_inputs[j] is Some implies id_valid(
                            v,
                            new_inputs[j]->0,
                        ) by {
                            assert(new_inputs[j] == old_inputs[j]);
                        }
                    }
                    lemma_reconnect_wf(v, w, n, new_inputs);
                    lemma_changed_edges(v, w, n, new_inputs);
                    assert forall|a: int| #[trigger] count_refs(new_inputs, a) > 0 implies edge(v, a, n) by {
                    }
                    if acyclic(v) {
                        lemma_acyclic_subgraph(v, w);
                    }
                }
                Ok(msg)
            },
            Err(()) => {
                proof {
                    assert(self@ =~= with_inner(v, n, node_at(self@, n).inner));
                    lemma_inner_irrelevant(v, n);
                    assert(network_wf(with_inner(v, n, node_at(self@, n).inner)));
                    assert forall|a: int, b: int| #[trigger] edge(self@, a, b) implies edge(v, a, b) by {
                        assert(live(v, b));
                    }
                    if acyclic(v) {
                        lemma_acyclic_subgraph(v, self@);
                    }
                }
                Err(NetworkError::CantRemoveInput(node_id))
            },
        }
    }

    /// Remove a node from this network.  Fail if it has any listeners unless we are forcing
    /// removal, in which case every input connected to it is disconnected.
    pub fn remove(&mut self, node_id: I, force: bool) -> (r: Result<N, NetworkError<I>>)
        requires
            old(self).wf(),
        ensures
            acyclic(old(self)@) ==> acyclic(final(self)@),
            final(self).wf(),
            ({
                let v = old(self)@;
                let x = node_id.spec_index() as int;
                if !id_valid(v, node_id) {
                    r == Err::<N, _>(lookup_error(v, node_id)) && final(self)@ == v
                } else if !force && !node_at(v, x).listeners.dom().is_empty() {
                    r == Err::<N, _>(NetworkError::HasListeners(node_id)) && final(self)@ == v
                } else {
                    r == Ok::<N, NetworkError<I>>(node_at(v, x).inner) && final(self)@ == removed_view(
                        v,
                        x,
                        node_id,
                    )
                }
            }),
    {
        let ghost v = self@;
        match self.node(node_id) {
            Err(e) => return Err(e),
            Ok(node) => {
                if !force && node.has_listeners() {
                    return Err(NetworkError::HasListeners(node_id));
                }
            },
        }
        let x = node_id.index();
        let ghost xi = x as int;
        let mut taken: Option<Node<N, I>> = None;
        std::mem::swap(&mut taken, &mut self.slots[x as usize].node);
        let node = taken.unwrap();
        proof {
            assert(node@ == node_at(v, xi));
            assert(live(v, xi));
            assert(listeners_exact(v, xi));
            assert(inputs_valid(v, node@.inputs));
        }
        let ghost v0 = self@;
        proof {
            assert(v0 =~= v.update(xi, SlotView { gen_id: v[xi].gen_id, node: None }));
            assert(node@.inputs.take(0) =~= Seq::<Option<I>>::empty());
            assert forall|i: int| #[trigger] live(v0, i) implies listeners_left(
                v0,
                v,
                node@.inputs,
                0,
                x,
                i,
            ) by {
                assert(live(v, i));
                assert(listeners_exact(v, i));
                assert(node_at(v, i).listeners.contains_key(x) <==> edge(v, i, xi));
            }
        }
        let mut k: usize = 0;
        while k < node.inputs.len()
            invariant
                self.nodes_wf(),
                node.wf(),
                node@ == node_at(v, xi),
                network_wf(v),
                id_valid(v, node_id),
                xi == node_id.spec_index(),
                listeners_exact(v, xi),
                inputs_valid(v, node@.inputs),
                k <= node.inputs@.len(),
                self@.len() == v.len(),
                forall|i: int| 0 <= i < v.len() ==> #[trigger] self@[i].gen_id == v[i].gen_id,
                forall|i: int| #[trigger] live(self@, i) <==> live(v, i) && i != xi,
                forall|i: int| #[trigger] live(self@, i) ==> node_at(self@, i).inputs == node_at(v, i).inputs
                    && node_at(self@, i).inner == node_at(v, i).inner,
                forall|i: int| #[trigger] live(self@, i) ==> listeners_left(
                    self@,
                    v,
                    node@.inputs,
                    k as int,
                    x,
                    i,
                ),
            decreases node.inputs@.len() - k,
        {
            let ghost before = self@;
            proof {
                assert(node@.inputs.take(k as int + 1).drop_last() =~= node@.inputs.take(k as int));
                assert forall|i: int| #[trigger] live(self@, i) implies count_refs(node@.inputs.take(k as int + 1), i)
                    <= count_refs(node@.inputs, i) by {
                    lemma_count_refs_prefix(node@.inputs, k as int + 1, i);
                }
            }
            if let Some(input_node_id) = node.inputs[k] {
                proof {
                    assert(id_valid(v, input_node_id));
                }
                let ghost a = input_node_id.spec_index() as int;
                match self.node_mut(input_node_id) {
                    Ok(input_node) => {
                        input_node.remove_listener(x);
                        proof {
                            assert(self@ =~= before.update(a, slot_view(self.slots@[a])));
                            assert(live(before, a));
                            assert(a != xi);
                            lemma_listeners_left_step(before, self@, v, node@.inputs, k as int, x, a);
                        }
                    },
                    Err(_) => {
                        proof {
                            assert(self@ =~= before);
                            assert(a == xi);
                            assert(node@.inputs.take(k as int + 1).last() == node@.inputs[k as int]);
                            assert forall|i: int| #[trigger] live(self@, i) implies listeners_left(
                                self@,
                                v,
                                node@.inputs,
                                k as int + 1,
                                x,
                                i,
                            ) by {
                                assert(listeners_left(before, v, node@.inputs, k as int, x, i));
                                assert(count_refs(node@.inputs.take(k as int + 1), i) == count_refs(
                                    node@.inputs.take(k as int),
                                    i,
                                ) + ref_count(node@.inputs[k as int], i));
                            }
                        }
                    },
                }
                proof {
                    assert(forall|i: int| 0 <= i < v.len() ==> #[trigger] self@[i].gen_id == v[i].gen_id);
                    assert forall|i: int| #[trigger] live(self@, i) <==> live(v, i) && i != xi by {
                        assert(live(before, i) <==> live(v, i) && i != xi);
                    }
                    assert forall|i: int| #[trigger] live(self@, i) implies node_at(self@, i).inputs == node_at(v, i).inputs
                        && node_at(self@, i).inner == node_at(v, i).inner by {
                        assert(live(before, i));
                    }
                }
            } else {
                proof {
                    assert forall|i: int| #[trigger] live(self@, i) implies count_refs(
                        node@.inputs.take(k as int + 1),
                        i,
                    ) == count_refs(node@.inputs.take(k as int), i) by {
                        assert(node@.inputs.take(k as int + 1).last() == node@.inputs[k as int]);
                    }
                    assert forall|i: int| #[trigger] live(self@, i) implies listeners_left(
                        self@,
                        v,
                        node@.inputs,
                        k as int + 1,
                        x,
                        i,
                    ) by {
                        assert(listeners_left(self@, v, node@.inputs, k as int, x, i));
                        assert(count_refs(node@.inputs.take(k as int + 1), i) == count_refs(
                            node@.inputs.take(k as int),
                            i,
                        ));
                    }
                }
            }
            k = k + 1;
        }
        proof {
            assert(node@.inputs.take(k as int) =~= node@.inputs);
        }
        let ghost v1 = self@;
        let ls = node.listener_list();
        let mut j: usize = 0;
        while j < ls.len()
            invariant
                pairs_wf(ls@),
                pairs_map(ls@) == node@.listeners,
                self.nodes_wf(),
                node.wf(),
                node@ == node_at(v, xi),
                network_wf(v),
                id_valid(v, node_id),
                xi == node_id.spec_index(),
                listeners_exact(v, xi),
                j <= ls@.len(),
                self@.len() == v.len(),
                forall|i: int| 0 <= i < v.len() ==> #[trigger] self@[i].gen_id == v[i].gen_id,
                forall|i: int| #[trigger] live(self@, i) <==> live(v, i) && i != xi,
                forall|i: int| #[trigger] live(self@, i) ==> node_at(self@, i).inner == node_at(v, i).inner
                    && node_at(self@, i).listeners == node_at(v, i).listeners.remove(x),
                forall|i: int| #[trigger] live(self@, i) ==> node_at(self@, i).inputs == if (exists|jj: int|
                    0 <= jj < j && ls@[jj].0 == i) {
                    disconnected(node_at(v, i).inputs, node_id)
                } else {
                    node_at(v, i).inputs
                },
            decreases ls@.len() - j,
        {
            let ghost before = self@;
            let listener = ls[j].0;
            match self.node_direct_mut(listener) {
                Ok(ln) => {
                    ln.disconnect_from(node_id);
                    proof {
                        assert(self@ =~= before.update(listener as int, slot_view(self.slots@[listener as int])));
                    }
                },
                Err(_) => {
                    proof {
                        assert(self@ =~= before);
                    }
                },
            }
            proof {
                assert forall|i: int| 0 <= i < v.len() implies #[trigger] self@[i].gen_id == v[i].gen_id by {
                    assert(before[i].gen_id == v[i].gen_id);
                }
                assert forall|i: int| #[trigger] live(self@, i) <==> live(v, i) && i != xi by {
                    assert(live(before, i) <==> live(v, i) && i != xi);
                }
                assert forall|i: int| #[trigger] live(self@, i) implies node_at(self@, i).inner == node_at(v, i).inner
                    && node_at(self@, i).listeners == node_at(v, i).listeners.remove(x) by {
                    assert(live(before, i));
                }
                assert forall|i: int| #[trigger] live(self@, i) implies node_at(self@, i).inputs == if (exists|jj: int|
                    0 <= jj < j + 1 && ls@[jj].0 == i) {
                    disconnected(node_at(v, i).inputs, node_id)
                } else {
                    node_at(v, i).inputs
                } by {
                    assert(live(before, i));
                    let in_new = exists|jj: int| 0 <= jj < j + 1 && ls@[jj].0 == i;
                    let in_old = exists|jj: int| 0 <= jj < j && ls@[jj].0 == i;
                    if i == listener as int {
                        assert(ls@[j as int].0 == i);
                        assert(in_new);
                        if in_old {
                            let jj = choose|jj: int| 0 <= jj < j && ls@[jj].0 == i;
                            assert(ls@[jj].0 != ls@[j as int].0);
                        }
                        assert(node_at(before, i).inputs == node_at(v, i).inputs);
                    } else {
                        if in_new {
                            let jj = choose|jj: int| 0 <= jj < j + 1 && ls@[jj].0 == i;
                            assert(jj != j);
                            assert(in_old);
                        }
                        if in_old {
                            let jj = choose|jj: int| 0 <= jj < j && ls@[jj].0 == i;
                            assert(0 <= jj < j + 1);
                            assert(in_new);
                        }
                        assert(node_at(self@, i).inputs == node_at(before, i).inputs);
                    }
                }
            }
            j = j + 1;
        }
        proof {
            let w = self@;
            let target = removed_view(v, xi, node_id);
            assert forall|i: int| 0 <= i < v.len() implies #[trigger] w[i] == target[i] by {
                if i != xi && live(v, i) {
                    assert(live(w, i));
                    if !(exists|jj: int| 0 <= jj < j && ls@[jj].0 == i) {
                        if edge(v, xi, i) {
                            lemma_edge_listener(v, xi, i);
                            let jj = choose|jj: int|
                                0 <= jj < ls@.len() && ls@[jj].0 == i as u32;
                            assert(ls@[jj].0 == i);
                        }
                        lemma_disconnected_unreferenced(node_at(v, i).inputs, node_id);
                    }
                    assert(node_at(w, i).inputs == node_at(target, i).inputs);
                    assert(node_at(w, i).listeners == node_at(target, i).listeners);
                    assert(node_at(w, i).inner == node_at(target, i).inner);
                    assert(node_at(w, i) == node_at(target, i));
                    assert(w[i].gen_id == target[i].gen_id);
                    assert(w[i].node == target[i].node);
                } else if i != xi {
                    assert(!live(w, i));
                    assert(w[i].node is None);
                    assert(target[i] == v[i]);
                    assert(w[i].gen_id == v[i].gen_id);
                    assert(v[i].node is None);
                } else {
                    assert(!live(w, i));
                    assert(w[i].node is None);
                    assert(w[i].gen_id == target[i].gen_id);
                    assert(target[i].node is None);
                }
            }
            assert(w =~= target);
            lemma_remove_wf(v, node_id);
            assert forall|a: int, b: int| #[trigger] edge(w, a, b) implies edge(v, a, b) by {
                assert(live(v, b) && b != xi);
                if a == xi {
                    assert(inputs_valid(v, node_at(v, b).inputs));
                    let ins = node_at(v, b).inputs;
                    let k2 = lemma_count_refs_pos(node_at(w, b).inputs, a);
                    assert(id_valid(v, ins[k2]->0));
                } else {
                    lemma_count_refs_disconnected(node_at(v, b).inputs, node_id, a);
                }
            }
            if acyclic(v) {
                lemma_acyclic_subgraph(v, w);
            }
        }
        Ok(node.inner)
    }

    /// Get an immutable reference to a node at a slot, whatever its generation, if it exists.
    fn node_direct(&self, index: NodeIndex) -> (r: Result<&Node<N, I>, NetworkError<I>>)
        requires
            self.wf(),
        ensures
            match r {
                Ok(n) => live(self@, index as int) && n@ == node_at(self@, index as int) && n.wf(),
                Err(e) => !live(self@, index as int) && (e matches NetworkError::NoNodeAt(x)
                    && x.spec_index() == index && x.spec_gen_id() == 0),
            },
    {
        let i = index as usize;
        if i >= self.slots.len() {
            return Err(nonode(I::new(index, 0)));
        }
        match &self.slots[i].node {
            None => Err(nonode(I::new(index, 0))),
            Some(node) => Ok(node),
        }
    }
}

/// Things that can go wrong when operating on a network.
#[derive(Debug, Clone, Copy, PartialEq, Eq)]
pub enum NetworkError<I> {
    /// A command was directed at a node using an outdated generation ID.
    OldGenId(I),
    /// This node ID's index isn't present in the network.
    NoNodeAt(I),
    /// This input ID is out of range for this node.
    InvalidInputId(InputId),
    /// Connecting source to sink would create a cycle.
    WouldCycle { source: I, sink: I },
    /// Cannot remove a node because it has listeners.
    HasListeners(I),
    /// Cannot add an input to this node.
    CantAddInput(I),
    /// Cannot remove an input from this node.
    CantRemoveInput(I),
}

/// Shorthand for NetworkError::NoNodeAt.
pub fn nonode<I>(id: I) -> (r: NetworkError<I>)
    ensures
        r == NetworkError::NoNodeAt(id),
{
    NetworkError::NoNodeAt(id)
}

/// Shorthand for NetworkError::InvalidInputId.
pub fn noinput<I>(id: InputId) -> (r: NetworkError<I>)
    ensures
        r == NetworkError::<I>::InvalidInputId(id),
{
    NetworkError::InvalidInputId(id)
}

/// Shorthand for NetworkError::OldGenId.
pub fn oldgen<I>(id: I) -> (r: NetworkError<I>)
    ensures
        r == NetworkError::OldGenId(id),
{
    NetworkError::OldGenId(id)
}

} // verus!
