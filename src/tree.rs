use vstd::prelude::*;
use vstd::std_specs::cmp::PartialEqSpec;
use crate::model::{
    after_release, counted,
    attached, count_live, count_of, dropped_refs, first_match, holds_value, lemma_count_of_append,
    lemma_count_update, lemma_dropped_none, lemma_dropped_update, lemma_freed_grows, owned_by_freed,
    released_refs, NodeState,
};

verus! {

struct Slot<T> {
    value: T,
    parent: Option<usize>,
    children: Vec<Node>,
    strong: usize,
}

/// The store that every node lives in. A slot is vacant once its node has
/// been deallocated; slots are never reused, so a stale weak handle never
/// resolves to a later node.
pub struct Arena<T> {
    slots: Vec<Option<Slot<T>>>,
}

/// An owning handle to a node. It is not `Clone`: a further owning handle
/// is made with `clone_handle`, and a handle is given up with `release`.
pub struct Node {
    id: usize,
}

/// A non-owning handle to a node, possibly empty.
#[derive(Clone, Copy)]
pub struct WeakNode {
    id: Option<usize>,
}

/// The identities of the nodes that a sequence of owning handles holds.
pub open spec fn ids_of(hs: Seq<Node>) -> Seq<usize> {
    hs.map_values(|h: Node| h.id())
}

impl Node {
    /// The identity of the node this handle owns.
    pub closed spec fn id(&self) -> usize {
        self.id
    }
}

impl WeakNode {
    /// The identity of the node this handle points to, if any.
    pub closed spec fn target(&self) -> Option<usize> {
        self.id
    }
}

impl<T> Slot<T> {
    spec fn state(&self) -> NodeState<T> {
        NodeState {
            value: self.value,
            parent: self.parent,
            children: ids_of(self.children@),
            strong: self.strong as nat,
        }
    }
}

impl<T> View for Arena<T> {
    type V = Seq<Option<NodeState<T>>>;

    closed spec fn view(&self) -> Seq<Option<NodeState<T>>> {
        self.slots@.map_values(|s: Option<Slot<T>>|
            match s {
                Some(x) => Some(x.state()),
                None => None,
            })
    }
}

impl<T> Arena<T> {
    /// Every live node has at least one owning handle.
    pub closed spec fn wf(&self) -> bool {
        forall|i: int| 0 <= i < self.slots@.len() && (#[trigger] self.slots@[i]) is Some
            ==> self.slots@[i].unwrap().strong >= 1
    }

    /// Slot `id` exists and holds a node that has not been deallocated.
    pub open spec fn live(&self, id: usize) -> bool {
        id < self@.len() && self@[id as int] is Some
    }

    /// The state of node `id`, meaningful where it is live.
    pub open spec fn state(&self, id: usize) -> NodeState<T> {
        self@[id as int].unwrap()
    }

    /// Well-formedness seen through the view.
    proof fn lemma_wf_counted(&self)
        requires
            self.wf(),
        ensures
            counted(self@),
    {
        assert forall|i: int| 0 <= i < self@.len() && (#[trigger] self@[i]) is Some implies self@[
            i
        ].unwrap().strong >= 1 by {
            assert(self.slots@[i] is Some);
        }
    }

    /// An empty store.
    pub fn new() -> (r: Self)
        ensures
            r.wf(),
            r@.len() == 0,
    {
        Arena { slots: Vec::new() }
    }
}

impl Node {
    /// Allocates a standalone node holding `value`, with no parent and no
    /// children, and returns the only owning handle to it.
    pub fn new<T>(arena: &mut Arena<T>, value: T) -> (r: Node)
        requires
            old(arena).wf(),
            old(arena)@.len() < usize::MAX,
        ensures
            final(arena).wf(),
            r.id() == old(arena)@.len(),
            final(arena)@ == old(arena)@.push(
                Some(NodeState { value, parent: None, children: Seq::empty(), strong: 1 }),
            ),
    {
        let id = arena.slots.len();
        let slot = Slot { value, parent: None, children: Vec::new(), strong: 1 };
        arena.slots.push(Some(slot));
        proof {
            assert(ids_of(Seq::<Node>::empty()) =~= Seq::<usize>::empty());
            assert(arena@ =~= old(arena)@.push(
                Some(NodeState { value, parent: None, children: Seq::empty(), strong: 1 }),
            ));
        }
        Node { id }
    }

    /// Another owning handle to the same node; its strong count grows by one.
    pub fn clone_handle<T>(&self, arena: &mut Arena<T>) -> (r: Node)
        requires
            old(arena).wf(),
            old(arena).live(self.id()),
            old(arena).state(self.id()).strong < usize::MAX,
        ensures
            final(arena).wf(),
            r.id() == self.id(),
            final(arena)@ == old(arena)@.update(
                self.id() as int,
                Some(NodeState { strong: old(arena).state(self.id()).strong + 1, ..old(arena).state(self.id()) }),
            ),
    {
        let mut cur: Option<Slot<T>> = None;
        std::mem::swap(&mut arena.slots[self.id], &mut cur);
        let mut slot = cur.unwrap();
        slot.strong = slot.strong + 1;
        arena.slots[self.id] = Some(slot);
        proof {
            assert(arena@ =~= old(arena)@.update(
                self.id() as int,
                Some(NodeState { strong: old(arena).state(self.id()).strong + 1, ..old(arena).state(self.id()) }),
            ));
        }
        Node { id: self.id }
    }

    /// How many owning handles to the node exist, those held in children
    /// lists included.
    pub fn strong_count<T>(&self, arena: &Arena<T>) -> (r: usize)
        requires
            arena.live(self.id()),
        ensures
            r == arena.state(self.id()).strong,
    {
        match &arena.slots[self.id] {
            Some(slot) => {
                proof {
                    assert(arena@[self.id() as int] == Some(slot.state()));
                }
                slot.strong
            },
            None => {
                proof {
                    assert(arena@[self.id() as int] is None);
                }
                unreached()
            },
        }
    }

    /// Whether two owning handles denote the same node.
    pub fn ptr_eq(&self, other: &Node) -> (r: bool)
        ensures
            r == (self.id() == other.id()),
    {
        self.id == other.id
    }

    /// A non-owning handle to this node.
    pub fn downgrade(&self) -> (r: WeakNode)
        ensures
            r.target() == Some(self.id()),
    {
        WeakNode { id: Some(self.id) }
    }

    /// The node's current value.
    pub fn value<'a, T>(&self, arena: &'a Arena<T>) -> (r: &'a T)
        requires
            arena.live(self.id()),
        ensures
            *r == arena.state(self.id()).value,
    {
        match &arena.slots[self.id] {
            Some(slot) => &slot.value,
            None => {
                proof {
                    assert(arena@[self.id() as int] is None);
                }
                unreached()
            },
        }
    }

    /// Replaces the node's value.
    pub fn set_value<T>(&self, arena: &mut Arena<T>, value: T)
        requires
            old(arena).wf(),
            old(arena).live(self.id()),
        ensures
            final(arena).wf(),
            final(arena)@ == old(arena)@.update(
                self.id() as int,
                Some(NodeState { value, ..old(arena).state(self.id()) }),
            ),
    {
        let mut cur: Option<Slot<T>> = None;
        std::mem::swap(&mut arena.slots[self.id], &mut cur);
        let mut slot = cur.unwrap();
        slot.value = value;
        arena.slots[self.id] = Some(slot);
        proof {
            assert(arena@ =~= old(arena)@.update(
                self.id() as int,
                Some(NodeState { value, ..old(arena).state(self.id()) }),
            ));
        }
    }

    /// The node's children, in the order they were attached.
    pub fn get_children<'a, T>(&self, arena: &'a Arena<T>) -> (r: &'a Vec<Node>)
        requires
            arena.live(self.id()),
        ensures
            ids_of(r@) == arena.state(self.id()).children,
    {
        match &arena.slots[self.id] {
            Some(slot) => &slot.children,
            None => {
                proof {
                    assert(arena@[self.id() as int] is None);
                }
                unreached()
            },
        }
    }

    /// A copy of the node's back-reference to its parent; empty for a root.
    pub fn get_parent<T>(&self, arena: &Arena<T>) -> (r: WeakNode)
        requires
            arena.live(self.id()),
        ensures
            r.target() == arena.state(self.id()).parent,
    {
        match &arena.slots[self.id] {
            Some(slot) => WeakNode { id: slot.parent },
            None => {
                proof {
                    assert(arena@[self.id() as int] is None);
                }
                unreached()
            },
        }
    }

    /// Attaches `child` under this node. `self_ref` must be a handle to this
    /// very node: the child's new parent back-reference is taken from it, and
    /// a handle to any other node is ruled out by the precondition, since it
    /// would leave the child pointing at a node that does not list it.
    /// The child's parent becomes this node and the child is appended to
    /// this node's children, duplicates included; the handle `child` moves
    /// into that list. Attaching never detaches: a child that already had a
    /// parent stays in that parent's list, and only its back-reference moves.
    pub fn add_child<T>(&self, arena: &mut Arena<T>, self_ref: &Node, child: Node)
        requires
            old(arena).wf(),
            self.id() == self_ref.id(),
            old(arena).live(self.id()),
            old(arena).live(child.id()),
        ensures
            final(arena).wf(),
            final(arena)@ == attached(old(arena)@, self.id(), child.id()),
    {
        let c = child.id;
        let p = self_ref.id;
        let mut cur: Option<Slot<T>> = None;
        std::mem::swap(&mut arena.slots[c], &mut cur);
        let mut slot = cur.unwrap();
        slot.parent = Some(p);
        arena.slots[c] = Some(slot);
        let ghost s1 = arena@;
        proof {
            assert(s1 =~= old(arena)@.update(
                c as int,
                Some(NodeState { parent: Some(p), ..old(arena)@[c as int].unwrap() }),
            ));
        }
        let mut cur: Option<Slot<T>> = None;
        std::mem::swap(&mut arena.slots[p], &mut cur);
        let mut slot = cur.unwrap();
        let ghost before = slot.children@;
        slot.children.push(child);
        proof {
            assert(ids_of(slot.children@) =~= ids_of(before).push(c));
        }
        arena.slots[p] = Some(slot);
        proof {
            assert(arena@ =~= attached(old(arena)@, p, c));
        }
    }

    /// A non-owning handle to the first child, in attachment order, whose
    /// value equals `value`; `None` where no child's value does.
    pub fn get_child<T: PartialEq>(&self, arena: &Arena<T>, value: T) -> (r: Option<WeakNode>)
        requires
            arena.live(self.id()),
            T::obeys_eq_spec(),
        ensures
            ({
                let children = arena.state(self.id()).children;
                match r {
                    None => forall|k: int|
                        0 <= k < children.len() ==> !holds_value(arena@, #[trigger] children[k], value),
                    Some(w) => exists|k: int|
                        first_match(arena@, children, value, k) && w.target() == Some(
                            #[trigger] children[k],
                        ),
                }
            }),
    {
        let children = self.get_children(arena);
        let ghost ids = arena.state(self.id()).children;
        let mut i: usize = 0;
        while i < children.len()
            invariant
                ids_of(children@) == ids,
                ids == arena.state(self.id()).children,
                T::obeys_eq_spec(),
                0 <= i <= children.len(),
                forall|j: int| 0 <= j < i ==> !holds_value(arena@, #[trigger] ids[j], value),
            decreases children.len() - i,
        {
            let c = children[i].id;
            proof {
                assert(ids[i as int] == c);
            }
            if c < arena.slots.len() {
                match &arena.slots[c] {
                    Some(slot) => {
                        proof {
                            assert(arena@[c as int] == Some(slot.state()));
                        }
                        if slot.value.eq(&value) {
                            proof {
                                assert(first_match(arena@, ids, value, i as int));
                            }
                            return Some(WeakNode { id: Some(c) });
                        }
                    },
                    None => {
                        proof {
                            assert(arena@[c as int] is None);
                        }
                    },
                }
            }
            i = i + 1;
        }
        None
    }

    /// Gives up this owning handle. The node's strong count falls by one;
    /// when it reaches zero the node is deallocated and the handles in its
    /// children list are given up in turn, so a subtree owned only by the
    /// node goes with it. Back-references never keep a node alive.
    pub fn release<T>(self, arena: &mut Arena<T>)
        requires
            old(arena).wf(),
            old(arena).live(self.id()),
        ensures
            final(arena).wf(),
            final(arena)@.len() == old(arena)@.len(),
            old(arena).state(self.id()).strong > 1 ==> final(arena)@ == old(arena)@.update(
                self.id() as int,
                Some(NodeState { strong: (old(arena).state(self.id()).strong - 1) as nat, ..old(arena).state(self.id()) }),
            ),
            old(arena).state(self.id()).strong == 1 ==> !final(arena).live(self.id()),
            after_release(old(arena)@, final(arena)@, self.id()),
    {
        let ghost s0 = arena@;
        let id = self.id;
        let mut cur: Option<Slot<T>> = None;
        std::mem::swap(&mut arena.slots[id], &mut cur);
        let mut slot = cur.unwrap();
        if slot.strong > 1 {
            slot.strong = slot.strong - 1;
            arena.slots[id] = Some(slot);
            proof {
                assert(arena@ =~= s0.update(
                    id as int,
                    Some(NodeState { strong: (s0[id as int].unwrap().strong - 1) as nat, ..s0[id as int].unwrap() }),
                ));
                assert forall|i: usize| i < s0.len() implies #[trigger] released_refs(s0, arena@, i)
                    == 0 by {
                    lemma_dropped_update(s0, s0, arena@, id as int, i, s0.len() as int);
                    lemma_dropped_none(s0, i, s0.len() as int);
                }
                arena.lemma_wf_counted();
            }
            return;
        }
        let mut stack: Vec<Node> = Vec::new();
        let ghost kids0 = slot.children@;
        stack.append(&mut slot.children);
        proof {
            assert(arena@ =~= s0.update(id as int, None));
            assert(ids_of(stack@) =~= s0[id as int].unwrap().children);
            assert forall|i: usize| i < s0.len() && #[trigger] s0[i as int] is Some implies
                dropped_refs(s0, arena@, i, s0.len() as int) == count_of(ids_of(stack@), i) by {
                lemma_dropped_update(s0, s0, arena@, id as int, i, s0.len() as int);
                lemma_dropped_none(s0, i, s0.len() as int);
            }
            assert forall|k: int| 0 <= k < stack@.len() implies owned_by_freed(
                s0,
                arena@,
                #[trigger] stack@[k].id(),
            ) by {
                assert(ids_of(stack@)[k] == stack@[k].id());
                assert(s0[id as int].unwrap().children.contains(stack@[k].id()));
            }
        }
        while stack.len() > 0
            invariant
                arena.wf(),
                arena@.len() == s0.len(),
                id < s0.len(),
                arena@[id as int] is None,
                forall|i: int| 0 <= i < s0.len() && (#[trigger] arena@[i]) is Some ==> {
                    &&& s0[i] is Some
                    &&& arena@[i].unwrap().value == s0[i].unwrap().value
                    &&& arena@[i].unwrap().parent == s0[i].unwrap().parent
                    &&& arena@[i].unwrap().children == s0[i].unwrap().children
                    &&& arena@[i].unwrap().strong <= s0[i].unwrap().strong
                },
                forall|i: usize|
                    #![trigger s0[i as int], arena@[i as int]]
                    i < s0.len() && s0[i as int] is Some && arena@[i as int] is None && i != id
                        ==> owned_by_freed(s0, arena@, i),
                forall|k: int| 0 <= k < stack@.len() ==> owned_by_freed(s0, arena@, #[trigger] stack@[k].id()),
                forall|i: usize|
                    i < s0.len() && s0[i as int] is Some && (#[trigger] arena@[i as int]) is Some
                        ==> arena@[i as int].unwrap().strong + (if i == id { 1nat } else { 0nat })
                        + dropped_refs(s0, arena@, i, s0.len() as int) == s0[i as int].unwrap().strong
                        + count_of(ids_of(stack@), i),
                forall|i: usize|
                    i < s0.len() && s0[i as int] is Some && (#[trigger] arena@[i as int]) is None
                        ==> s0[i as int].unwrap().strong + count_of(ids_of(stack@), i) <= (if i == id {
                        1nat
                    } else {
                        0nat
                    }) + dropped_refs(s0, arena@, i, s0.len() as int),
            decreases count_live(arena@), stack@.len(),
        {
            let ghost st = stack@;
            let h = stack.pop().unwrap();
            let i = h.id;
            proof {
                assert(h == st[st.len() - 1]);
                assert(ids_of(stack@) =~= ids_of(st).drop_last());
                assert(owned_by_freed(s0, arena@, st[st.len() - 1].id()));
                assert forall|k: int| 0 <= k < stack@.len() implies owned_by_freed(
                    s0,
                    arena@,
                    #[trigger] stack@[k].id(),
                ) by {
                    assert(stack@[k] == st[k]);
                }
            }
            if i < arena.slots.len() && arena.slots[i].is_some() {
                let ghost before = arena@;
                let mut cur: Option<Slot<T>> = None;
                std::mem::swap(&mut arena.slots[i], &mut cur);
                let mut slot = cur.unwrap();
                proof {
                    assert(before[i as int] == Some(slot.state()));
                }
                if slot.strong > 1 {
                    slot.strong = slot.strong - 1;
                    arena.slots[i] = Some(slot);
                    proof {
                        assert(arena@ =~= before.update(i as int, Some(slot.state())));
                        lemma_count_update(before, i as int, Some(slot.state()));
                        lemma_freed_grows(s0, before, arena@);
                        assert forall|x: usize| x < s0.len() implies dropped_refs(
                            s0,
                            arena@,
                            x,
                            s0.len() as int,
                        ) == dropped_refs(s0, before, x, s0.len() as int) by {
                            lemma_dropped_update(s0, before, arena@, i as int, x, s0.len() as int);
                        }
                    }
                } else {
                    let ghost pre = stack@;
                    let ghost kids = slot.children@;
                    stack.append(&mut slot.children);
                    proof {
                        assert(arena@ =~= before.update(i as int, None));
                        lemma_count_update(before, i as int, None);
                        lemma_freed_grows(s0, before, arena@);
                        assert(ids_of(stack@) =~= ids_of(pre) + ids_of(kids));
                        assert(ids_of(kids) == s0[i as int].unwrap().children);
                        assert forall|x: usize| x < s0.len() implies dropped_refs(
                            s0,
                            arena@,
                            x,
                            s0.len() as int,
                        ) == dropped_refs(s0, before, x, s0.len() as int) + count_of(ids_of(kids), x)
                            && count_of(ids_of(stack@), x) == count_of(ids_of(pre), x) + count_of(
                            ids_of(kids),
                            x,
                        ) by {
                            lemma_dropped_update(s0, before, arena@, i as int, x, s0.len() as int);
                            lemma_count_of_append(ids_of(pre), ids_of(kids), x);
                        }
                        assert forall|k: int| 0 <= k < stack@.len() implies owned_by_freed(
                            s0,
                            arena@,
                            #[trigger] stack@[k].id(),
                        ) by {
                            if k >= pre.len() {
                                let m = k - pre.len();
                                assert(ids_of(kids)[m] == stack@[k].id());
                                assert(s0[i as int].unwrap().children.contains(stack@[k].id()));
                            } else {
                                assert(stack@[k] == pre[k]);
                            }
                        }
                    }
                }
            }
        }
        proof {
            arena.lemma_wf_counted();
        }
    }
}

impl WeakNode {
    /// An empty handle, which never upgrades.
    pub fn new() -> (r: WeakNode)
        ensures
            r.target() is None,
    {
        WeakNode { id: None }
    }

    /// Whether two weak handles point to the same node (or are both empty).
    pub fn ptr_eq(&self, other: &WeakNode) -> (r: bool)
        ensures
            r == (self.target() == other.target()),
    {
        match (self.id, other.id) {
            (Some(a), Some(b)) => a == b,
            (None, None) => true,
            _ => false,
        }
    }

    /// An owning handle to the node pointed to, if it is still live; its
    /// strong count then grows by one. `None` for an empty handle or a node
    /// that has been deallocated.
    pub fn upgrade<T>(&self, arena: &mut Arena<T>) -> (r: Option<Node>)
        requires
            old(arena).wf(),
            (match self.target() {
                Some(i) => old(arena).live(i) ==> old(arena).state(i).strong < usize::MAX,
                None => true,
            }),
        ensures
            final(arena).wf(),
            match self.target() {
                Some(i) if old(arena).live(i) => {
                    &&& r matches Some(h) && h.id() == i
                    &&& final(arena)@ == old(arena)@.update(
                        i as int,
                        Some(NodeState { strong: old(arena).state(i).strong + 1, ..old(arena).state(i) }),
                    )
                },
                _ => r is None && final(arena)@ == old(arena)@,
            },
    {
        match self.id {
            Some(i) => {
                if i < arena.slots.len() && arena.slots[i].is_some() {
                    let h = Node { id: i };
                    let r = h.clone_handle(arena);
                    Some(r)
                } else {
                    None
                }
            },
            None => None,
        }
    }
}

} // verus!
