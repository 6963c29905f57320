//! The mathematical picture of an arena: a sequence of slots, each either
//! vacant or holding the state of one live node, and the facts about it
//! that the operations' contracts are stated with.
use vstd::prelude::*;
use vstd::std_specs::cmp::PartialEqSpec;

verus! {

/// What one live node holds, as seen in contracts.
pub struct NodeState<T> {
    pub value: T,
    pub parent: Option<usize>,
    pub children: Seq<usize>,
    pub strong: nat,
}

/// The store after `c` is attached as a child of `p`: `c`'s parent becomes
/// `p`, then `c` is appended to `p`'s children.
pub open spec fn attached<T>(s: Seq<Option<NodeState<T>>>, p: usize, c: usize) -> Seq<
    Option<NodeState<T>>,
> {
    let s1 = s.update(c as int, Some(NodeState { parent: Some(p), ..s[c as int].unwrap() }));
    s1.update(
        p as int,
        Some(NodeState { children: s1[p as int].unwrap().children.push(c), ..s1[p as int].unwrap() }),
    )
}

/// Node `id` is live in `s` and its value equals `v`.
pub open spec fn holds_value<T: PartialEq>(s: Seq<Option<NodeState<T>>>, id: usize, v: T) -> bool {
    &&& id < s.len()
    &&& s[id as int] is Some
    &&& s[id as int].unwrap().value.eq_spec(&v)
}

/// Position `k` of `children` is the first whose node holds a value equal to `v`.
pub open spec fn first_match<T: PartialEq>(
    s: Seq<Option<NodeState<T>>>,
    children: Seq<usize>,
    v: T,
    k: int,
) -> bool {
    &&& 0 <= k < children.len()
    &&& holds_value(s, children[k], v)
    &&& forall|j: int| 0 <= j < k ==> !holds_value(s, #[trigger] children[j], v)
}

/// The number of live nodes in `s`.
pub open spec fn count_live<T>(s: Seq<Option<NodeState<T>>>) -> nat
    decreases s.len(),
{
    if s.len() == 0 {
        0
    } else {
        count_live(s.drop_last()) + if s.last() is Some {
            1nat
        } else {
            0nat
        }
    }
}

/// Node `c` is a child of some node that was live in `s0` and is gone in `s`.
pub open spec fn owned_by_freed<T>(
    s0: Seq<Option<NodeState<T>>>,
    s: Seq<Option<NodeState<T>>>,
    c: usize,
) -> bool {
    exists|j: int|
        0 <= j < s0.len() && s0[j] is Some && s[j] is None && (#[trigger] s0[j].unwrap().children).contains(c)
}

/// How many times `i` occurs in `ids`.
pub open spec fn count_of(ids: Seq<usize>, i: usize) -> nat
    decreases ids.len(),
{
    if ids.len() == 0 {
        0
    } else {
        count_of(ids.drop_last(), i) + if ids.last() == i {
            1nat
        } else {
            0nat
        }
    }
}

/// The references to `i` held in the children lists of those among the
/// first `n` slots whose nodes are live in `s0` and gone in `s`.
pub open spec fn dropped_refs<T>(
    s0: Seq<Option<NodeState<T>>>,
    s: Seq<Option<NodeState<T>>>,
    i: usize,
    n: int,
) -> nat
    decreases n,
{
    if n <= 0 {
        0
    } else {
        dropped_refs(s0, s, i, n - 1) + if s0[n - 1] is Some && s[n - 1] is None {
            count_of(s0[n - 1].unwrap().children, i)
        } else {
            0nat
        }
    }
}

/// The owning references to `i` that went away with the nodes that are
/// live in `s0` and gone in `s`.
pub open spec fn released_refs<T>(
    s0: Seq<Option<NodeState<T>>>,
    s: Seq<Option<NodeState<T>>>,
    i: usize,
) -> nat {
    dropped_refs(s0, s, i, s0.len() as int)
}

/// Every live node in `s` has at least one owning handle.
pub open spec fn counted<T>(s: Seq<Option<NodeState<T>>>) -> bool {
    forall|i: int| 0 <= i < s.len() && (#[trigger] s[i]) is Some ==> s[i].unwrap().strong >= 1
}

/// `s` is what is left of `s0` once one owning handle to `id` is given up
/// and every node whose count reaches zero is deallocated. No node comes
/// alive; a node that stays keeps its value, parent and children, and its
/// count falls by exactly the references given up on it; a node that goes
/// had no owners beyond those references, and unless it is `id` itself it
/// was a child of a node that went too.
pub open spec fn after_release<T>(s0: Seq<Option<NodeState<T>>>, s: Seq<Option<NodeState<T>>>, id: usize) -> bool {
    &&& s.len() == s0.len()
    &&& counted(s)
    &&& forall|i: usize| #![trigger s[i as int]] i < s.len() && s[i as int] is Some ==> {
        &&& s0[i as int] is Some
        &&& s[i as int].unwrap().value == s0[i as int].unwrap().value
        &&& s[i as int].unwrap().parent == s0[i as int].unwrap().parent
        &&& s[i as int].unwrap().children == s0[i as int].unwrap().children
        &&& s[i as int].unwrap().strong + (if i == id { 1nat } else { 0nat }) + released_refs(s0, s, i)
            == s0[i as int].unwrap().strong
    }
    &&& forall|i: usize| #![trigger s0[i as int], s[i as int]]
        i < s.len() && s0[i as int] is Some && s[i as int] is None ==> {
            &&& s0[i as int].unwrap().strong <= (if i == id { 1nat } else { 0nat }) + released_refs(s0, s, i)
            &&& i != id ==> owned_by_freed(s0, s, i)
        }
}

pub(crate) proof fn lemma_dropped_at<T>(
    s0: Seq<Option<NodeState<T>>>,
    s: Seq<Option<NodeState<T>>>,
    i: usize,
    j: int,
    n: int,
)
    requires
        0 <= j < n <= s0.len(),
        s0.len() == s.len(),
        s0[j] is Some,
        s[j] is None,
    ensures
        dropped_refs(s0, s, i, n) >= count_of(s0[j].unwrap().children, i),
    decreases n,
{
    if j < n - 1 {
        lemma_dropped_at(s0, s, i, j, n - 1);
    }
}

pub(crate) proof fn lemma_count_of_append(a: Seq<usize>, b: Seq<usize>, i: usize)
    ensures
        count_of(a + b, i) == count_of(a, i) + count_of(b, i),
    decreases b.len(),
{
    if b.len() == 0 {
        assert(a + b =~= a);
    } else {
        lemma_count_of_append(a, b.drop_last(), i);
        assert((a + b).drop_last() =~= a + b.drop_last());
    }
}

pub(crate) proof fn lemma_dropped_update<T>(
    s0: Seq<Option<NodeState<T>>>,
    s: Seq<Option<NodeState<T>>>,
    t: Seq<Option<NodeState<T>>>,
    j0: int,
    i: usize,
    n: int,
)
    requires
        s0.len() == s.len(),
        s.len() == t.len(),
        0 <= j0 < s.len(),
        0 <= n <= s.len(),
        s[j0] is Some,
        forall|j: int| 0 <= j < s.len() && j != j0 ==> (s[j] is None <==> t[j] is None),
    ensures
        dropped_refs(s0, t, i, n) == dropped_refs(s0, s, i, n) + if j0 < n && s0[j0] is Some
            && t[j0] is None {
            count_of(s0[j0].unwrap().children, i)
        } else {
            0nat
        },
    decreases n,
{
    if n > 0 {
        lemma_dropped_update(s0, s, t, j0, i, n - 1);
    }
}

pub(crate) proof fn lemma_dropped_none<T>(s0: Seq<Option<NodeState<T>>>, i: usize, n: int)
    requires
        0 <= n <= s0.len(),
    ensures
        dropped_refs(s0, s0, i, n) == 0,
    decreases n,
{
    if n > 0 {
        lemma_dropped_none(s0, i, n - 1);
    }
}

pub(crate) proof fn lemma_count_update<T>(s: Seq<Option<NodeState<T>>>, i: int, x: Option<NodeState<T>>)
    requires
        0 <= i < s.len(),
        s[i] is Some,
    ensures
        x is Some ==> count_live(s.update(i, x)) == count_live(s),
        x is None ==> count_live(s.update(i, x)) + 1 == count_live(s),
    decreases s.len(),
{
    if i == s.len() - 1 {
        assert(s.update(i, x).drop_last() =~= s.drop_last());
    } else {
        lemma_count_update(s.drop_last(), i, x);
        assert(s.update(i, x).drop_last() =~= s.drop_last().update(i, x));
    }
}

pub(crate) proof fn lemma_freed_grows<T>(
    s0: Seq<Option<NodeState<T>>>,
    a: Seq<Option<NodeState<T>>>,
    b: Seq<Option<NodeState<T>>>,
)
    requires
        a.len() == b.len(),
        s0.len() == a.len(),
        forall|j: int| 0 <= j < a.len() && a[j] is None ==> b[j] is None,
    ensures
        forall|c: usize| owned_by_freed(s0, a, c) ==> owned_by_freed(s0, b, c),
{
    assert forall|c: usize| owned_by_freed(s0, a, c) implies owned_by_freed(s0, b, c) by {
        let j = choose|j: int|
            0 <= j < s0.len() && s0[j] is Some && a[j] is None && (#[trigger] s0[j].unwrap().children).contains(c);
        assert(b[j] is None);
    }
}

} // verus!
