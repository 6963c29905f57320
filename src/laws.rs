//! Properties that relate several operations on nodes.
use vstd::prelude::*;
use vstd::std_specs::cmp::PartialEqSpec;
use crate::model::{
    after_release, attached, count_of, first_match, holds_value, lemma_dropped_at, NodeState,
};

verus! {

/// Attaching a node `c` under `p` grows `p`'s children by exactly one, with
/// `c` as the last of them, and leaves `c`'s parent reference naming `p`,
/// which is still live.
pub proof fn lemma_attach_links<T>(s: Seq<Option<NodeState<T>>>, p: usize, c: usize)
    requires
        p < s.len() && s[p as int] is Some,
        c < s.len() && s[c as int] is Some,
    ensures
        ({
            let t = attached(s, p, c);
            &&& t.len() == s.len()
            &&& t[p as int] is Some
            &&& t[p as int].unwrap().children == s[p as int].unwrap().children.push(c)
            &&& t[p as int].unwrap().children.len() == s[p as int].unwrap().children.len() + 1
            &&& t[p as int].unwrap().children.last() == c
            &&& t[c as int].unwrap().parent == Some(p)
        }),
{
}

/// Setting a node's value and then reading it gives back exactly that value.
pub proof fn lemma_set_then_get<T>(s: Seq<Option<NodeState<T>>>, id: usize, v: T)
    requires
        id < s.len() && s[id as int] is Some,
    ensures
        s.update(id as int, Some(NodeState { value: v, ..s[id as int].unwrap() }))[id as int].unwrap().value
            == v,
{
}

/// Where no child of `p` holds a value equal to `v`, attaching a node `c`
/// that holds such a value makes `c` the one and only first match.
pub proof fn lemma_attach_then_find<T: PartialEq>(
    s: Seq<Option<NodeState<T>>>,
    p: usize,
    c: usize,
    v: T,
)
    requires
        p < s.len() && s[p as int] is Some,
        holds_value(s, c, v),
        forall|k: int|
            0 <= k < s[p as int].unwrap().children.len() ==> !holds_value(
                s,
                #[trigger] s[p as int].unwrap().children[k],
                v,
            ),
    ensures
        ({
            let t = attached(s, p, c);
            let n = s[p as int].unwrap().children.len() as int;
            &&& first_match(t, t[p as int].unwrap().children, v, n)
            &&& t[p as int].unwrap().children[n] == c
            &&& forall|k: int| first_match(t, t[p as int].unwrap().children, v, k) ==> k == n
        }),
{
    let t = attached(s, p, c);
    let old_kids = s[p as int].unwrap().children;
    let kids = t[p as int].unwrap().children;
    let n = old_kids.len() as int;
    assert(kids == old_kids.push(c));
    assert forall|j: int| 0 <= j < n implies !holds_value(t, #[trigger] kids[j], v) by {
        assert(kids[j] == old_kids[j]);
        assert(!holds_value(s, old_kids[j], v));
        let x = kids[j];
        if x < s.len() && s[x as int] is Some {
            assert(t[x as int].unwrap().value == s[x as int].unwrap().value);
        }
    }
    assert(t[c as int].unwrap().value == s[c as int].unwrap().value);
}

/// Back-references never keep a node alive: when the last owning handle to
/// `p` is given up, a node `c` whose every owning handle sat in `p`'s
/// children list is deallocated together with `p`.
pub proof fn lemma_release_frees_owned_child<T>(
    s0: Seq<Option<NodeState<T>>>,
    s: Seq<Option<NodeState<T>>>,
    p: usize,
    c: usize,
)
    requires
        after_release(s0, s, p),
        p < s0.len() && s0[p as int] is Some,
        s0[p as int].unwrap().strong == 1,
        c < s0.len() && s0[c as int] is Some,
        s0[c as int].unwrap().strong <= count_of(s0[p as int].unwrap().children, c),
    ensures
        s[p as int] is None,
        s[c as int] is None,
{
    if s[p as int] is Some {
        assert(s[p as int].unwrap().strong >= 1);
    }
    if s[c as int] is Some {
        assert(s[c as int].unwrap().strong >= 1);
        lemma_dropped_at(s0, s, c, p as int, s0.len() as int);
    }
}

} // verus!
