use tree_node::{Arena, Node, WeakNode};

#[test]
fn add_child() {
    let mut arena = Arena::new();
    let a = Node::new(&mut arena, 1);
    let b = Node::new(&mut arena, 2);
    a.add_child(&mut arena, &a, b);
    assert_eq!(a.get_children(&arena).len(), 1);
}

#[test]
fn add_child_has_parent() {
    let mut arena = Arena::new();
    let a = Node::new(&mut arena, 1);
    let b = Node::new(&mut arena, 2);
    a.add_child(&mut arena, &a, b);
    let a_children = a.get_children(&arena);
    let b = a_children.get(0).unwrap();
    let b_parent = b.get_parent(&arena);
    assert!(b_parent.ptr_eq(&a.downgrade()));
}

#[test]
fn set_value() {
    let mut arena = Arena::new();
    let a = Node::new(&mut arena, 1);
    a.set_value(&mut arena, 3);
    assert_eq!(*a.value(&arena), 3);
}

#[test]
fn get_child_none() {
    let mut arena = Arena::new();
    let a = Node::new(&mut arena, 1);
    let b = Node::new(&mut arena, 2);
    a.add_child(&mut arena, &a, b);
    assert!(a.get_child(&arena, 3).is_none());
}

#[test]
fn get_child() {
    let mut arena = Arena::new();
    let a = Node::new(&mut arena, 1);
    let b = Node::new(&mut arena, 2);
    let observer_b = b.clone_handle(&mut arena);
    a.add_child(&mut arena, &a, b);
    let found = a.get_child(&arena, 2).unwrap().upgrade(&mut arena).unwrap();
    assert!(found.ptr_eq(&observer_b));
}

#[test]
fn get_children() {
    let mut arena = Arena::new();
    let a = Node::new(&mut arena, 1);
    let b = Node::new(&mut arena, 2);
    a.add_child(&mut arena, &a, b);
    assert_eq!(a.get_children(&arena).len(), 1);
}

#[test]
fn get_parent() {
    let mut arena = Arena::new();
    let a = Node::new(&mut arena, 1);
    let b = Node::new(&mut arena, 2);
    let observer_b = b.clone_handle(&mut arena);
    a.add_child(&mut arena, &a, b);
    let binding = observer_b.get_parent(&arena).upgrade(&mut arena).unwrap();
    assert!(binding.ptr_eq(&a));
}

#[test]
fn attach_appends_last_and_sets_parent() {
    let mut arena = Arena::new();
    let p = Node::new(&mut arena, 10);
    let first = Node::new(&mut arena, 11);
    let second = Node::new(&mut arena, 12);
    let observer = second.clone_handle(&mut arena);
    p.add_child(&mut arena, &p, first);
    let before = p.get_children(&arena).len();
    p.add_child(&mut arena, &p, second);
    let children = p.get_children(&arena);
    assert_eq!(children.len(), before + 1);
    assert!(children[children.len() - 1].ptr_eq(&observer));
    assert_eq!(*children[0].value(&arena), 11);
    assert_eq!(*children[1].value(&arena), 12);
    assert!(observer.get_parent(&arena).ptr_eq(&p.downgrade()));
}

#[test]
fn set_value_twice_keeps_last() {
    let mut arena = Arena::new();
    let a = Node::new(&mut arena, 1);
    a.set_value(&mut arena, 5);
    a.set_value(&mut arena, 7);
    assert_eq!(*a.value(&arena), 7);
}

#[test]
fn new_node_has_no_parent_and_no_children() {
    let mut arena = Arena::new();
    let a = Node::new(&mut arena, 4);
    assert_eq!(a.get_children(&arena).len(), 0);
    assert!(a.get_parent(&arena).upgrade(&mut arena).is_none());
    assert!(a.get_parent(&arena).ptr_eq(&WeakNode::new()));
}

#[test]
fn get_child_then_attach_finds_new_child() {
    let mut arena = Arena::new();
    let a = Node::new(&mut arena, 1);
    assert!(a.get_child(&arena, 9).is_none());
    let c = Node::new(&mut arena, 9);
    let observer = c.clone_handle(&mut arena);
    a.add_child(&mut arena, &a, c);
    let found = a.get_child(&arena, 9).unwrap().upgrade(&mut arena).unwrap();
    assert!(found.ptr_eq(&observer));
}

#[test]
fn get_child_prefers_earlier_of_equal_values() {
    let mut arena = Arena::new();
    let a = Node::new(&mut arena, 0);
    let b = Node::new(&mut arena, 5);
    let c = Node::new(&mut arena, 5);
    let observer_b = b.clone_handle(&mut arena);
    let observer_c = c.clone_handle(&mut arena);
    a.add_child(&mut arena, &a, b);
    a.add_child(&mut arena, &a, c);
    let found = a.get_child(&arena, 5).unwrap().upgrade(&mut arena).unwrap();
    assert!(found.ptr_eq(&observer_b));
    assert!(!found.ptr_eq(&observer_c));
}

#[test]
fn get_child_sees_changed_value() {
    let mut arena = Arena::new();
    let a = Node::new(&mut arena, 0);
    let b = Node::new(&mut arena, 2);
    let observer_b = b.clone_handle(&mut arena);
    a.add_child(&mut arena, &a, b);
    observer_b.set_value(&mut arena, 8);
    assert!(a.get_child(&arena, 2).is_none());
    assert!(a.get_child(&arena, 8).is_some());
}

#[test]
fn duplicate_attach_is_kept() {
    let mut arena = Arena::new();
    let a = Node::new(&mut arena, 1);
    let b = Node::new(&mut arena, 2);
    let b_again = b.clone_handle(&mut arena);
    a.add_child(&mut arena, &a, b);
    a.add_child(&mut arena, &a, b_again);
    let children = a.get_children(&arena);
    assert_eq!(children.len(), 2);
    assert!(children[0].ptr_eq(&children[1]));
}

#[test]
fn scenario_single_child() {
    let mut arena = Arena::new();
    let a = Node::new(&mut arena, 1);
    let b = Node::new(&mut arena, 2);
    let observer_b = b.clone_handle(&mut arena);
    a.add_child(&mut arena, &a, b);
    assert_eq!(a.get_children(&arena).len(), 1);
    assert!(a.get_child(&arena, 3).is_none());
    let found = a.get_child(&arena, 2).unwrap().upgrade(&mut arena).unwrap();
    assert!(found.ptr_eq(&observer_b));
}

#[test]
fn parent_keeps_child_alive() {
    let mut arena = Arena::new();
    let a = Node::new(&mut arena, 1);
    let b = Node::new(&mut arena, 2);
    let weak_b = b.downgrade();
    let observer_b = b.clone_handle(&mut arena);
    a.add_child(&mut arena, &a, b);
    observer_b.release(&mut arena);
    assert_eq!(*a.get_children(&arena)[0].value(&arena), 2);
    let again = weak_b.upgrade(&mut arena).unwrap();
    assert_eq!(*again.value(&arena), 2);
    again.release(&mut arena);
}

#[test]
fn dropping_parent_frees_child() {
    let mut arena = Arena::new();
    let a = Node::new(&mut arena, 1);
    let b = Node::new(&mut arena, 2);
    let c = Node::new(&mut arena, 3);
    let weak_b = b.downgrade();
    let weak_c = c.downgrade();
    b.add_child(&mut arena, &b, c);
    a.add_child(&mut arena, &a, b);
    a.release(&mut arena);
    assert!(weak_b.upgrade(&mut arena).is_none());
    assert!(weak_c.upgrade(&mut arena).is_none());
}

#[test]
fn parent_gone_means_no_parent() {
    let mut arena = Arena::new();
    let a = Node::new(&mut arena, 1);
    let b = Node::new(&mut arena, 2);
    let observer_b = b.clone_handle(&mut arena);
    a.add_child(&mut arena, &a, b);
    a.release(&mut arena);
    assert!(observer_b.get_parent(&arena).upgrade(&mut arena).is_none());
    assert_eq!(*observer_b.value(&arena), 2);
}

#[test]
fn outside_handle_survives_parent() {
    let mut arena = Arena::new();
    let a = Node::new(&mut arena, 1);
    let a_extra = a.clone_handle(&mut arena);
    let b = Node::new(&mut arena, 2);
    let weak_b = b.downgrade();
    a.add_child(&mut arena, &a, b);
    a.release(&mut arena);
    assert_eq!(*a_extra.value(&arena), 1);
    assert!(weak_b.upgrade(&mut arena).is_some());
}

#[test]
fn reattach_keeps_old_entry() {
    let mut arena = Arena::new();
    let p = Node::new(&mut arena, 1);
    let q = Node::new(&mut arena, 2);
    let c = Node::new(&mut arena, 3);
    let c_again = c.clone_handle(&mut arena);
    p.add_child(&mut arena, &p, c);
    q.add_child(&mut arena, &q, c_again);
    assert_eq!(p.get_children(&arena).len(), 1);
    assert_eq!(q.get_children(&arena).len(), 1);
    let c_view = &p.get_children(&arena)[0];
    assert!(c_view.get_parent(&arena).ptr_eq(&q.downgrade()));
}

#[test]
fn strong_counts_follow_handles() {
    let mut arena = Arena::new();
    let a = Node::new(&mut arena, 1);
    let b = Node::new(&mut arena, 2);
    assert_eq!(b.strong_count(&arena), 1);
    let observer_b = b.clone_handle(&mut arena);
    assert_eq!(observer_b.strong_count(&arena), 2);
    a.add_child(&mut arena, &a, b);
    assert_eq!(observer_b.strong_count(&arena), 2);
    assert_eq!(a.strong_count(&arena), 1);
    let weak_a = a.downgrade();
    let a_again = weak_a.upgrade(&mut arena).unwrap();
    assert_eq!(a_again.strong_count(&arena), 2);
    a_again.release(&mut arena);
    assert_eq!(a.strong_count(&arena), 1);
}

#[test]
fn cascade_stops_at_shared_child() {
    let mut arena = Arena::new();
    let a = Node::new(&mut arena, 1);
    let b = Node::new(&mut arena, 2);
    let c = Node::new(&mut arena, 3);
    let observer_c = c.clone_handle(&mut arena);
    let weak_b = b.downgrade();
    b.add_child(&mut arena, &b, c);
    a.add_child(&mut arena, &a, b);
    assert_eq!(observer_c.strong_count(&arena), 2);
    a.release(&mut arena);
    assert!(weak_b.upgrade(&mut arena).is_none());
    assert_eq!(observer_c.strong_count(&arena), 1);
    assert_eq!(*observer_c.value(&arena), 3);
    assert!(observer_c.get_parent(&arena).upgrade(&mut arena).is_none());
}

#[test]
fn child_attached_twice_freed_with_parent() {
    let mut arena = Arena::new();
    let a = Node::new(&mut arena, 1);
    let b = Node::new(&mut arena, 2);
    let b_again = b.clone_handle(&mut arena);
    let weak_b = b.downgrade();
    a.add_child(&mut arena, &a, b);
    a.add_child(&mut arena, &a, b_again);
    a.release(&mut arena);
    assert!(weak_b.upgrade(&mut arena).is_none());
}
