use std::cell::RefCell;

use treebox::{BorrowError, Forest, TreeBox};

fn values(tree: &mut Forest<String>, of: &TreeBox<String>) -> Vec<String> {
    let handles = of.children(tree).unwrap();
    let mut out = Vec::new();
    for h in handles {
        out.push(h.get(tree, |v| v.clone()).unwrap());
        tree.release(h);
    }
    out
}

#[test]
fn create() {
    let mut tree = Forest::new();
    let tree_box: TreeBox<String> = TreeBox::from(&mut tree, String::from("Hello"));
    tree.release(tree_box);
    assert!(!tree.is_live(0));
}

#[test]
fn childs() {
    let mut tree = Forest::new();
    let tree_box: TreeBox<String> = TreeBox::from(&mut tree, String::from("Hello"));
    assert_eq!(tree_box.get(&tree, |v| v.len()), Ok(5));
    let child = tree_box.create_child(&mut tree, String::from("World")).unwrap();
    child
        .mutate_parent(&mut tree, |parent| {
            assert_eq!(parent, "Hello");
            parent
        })
        .unwrap();
    tree_box
        .mutate_children(&mut tree, |child| {
            assert_eq!(child, "World");
            child
        })
        .unwrap();
}

#[test]
fn rec() {
    let mut tree = Forest::new();
    let parent: TreeBox<String> = TreeBox::from(&mut tree, String::from("Hello"));
    let child1 = parent.create_child(&mut tree, String::from("Child 1")).unwrap();
    let grandchild1 = child1.create_child(&mut tree, String::from("Child 1 -> Child 1")).unwrap();
    let _grandgrandchild1 = grandchild1
        .create_child(&mut tree, String::from("Child 1 -> Child 1 -> Child 1"))
        .unwrap();
    let _child2 = parent.create_child(&mut tree, String::from("Child 2")).unwrap();
    let _grandchild2 = child1.create_child(&mut tree, String::from("Child 1 -> Child 2")).unwrap();

    parent
        .mutate_children_rec(&mut tree, |s| {
            println!("{}", s);
            s
        })
        .unwrap();
}

#[test]
fn parent_get_rec() {
    let mut tree = Forest::new();
    let parent: TreeBox<Option<String>> = TreeBox::from(&mut tree, Some(String::from("Hello")));
    let child1 = parent.create_child(&mut tree, None).unwrap();
    let grandchild1 = child1.create_child(&mut tree, None).unwrap();
    let result = grandchild1.get_parent_rec(
        &tree,
        |s| {
            println!("try get");
            s.clone().map(|s| s)
        },
        |_, p| {
            println!("try get failed: parent fallback");
            p.or(Some("No Value at all !".to_string())).unwrap()
        },
    );
    assert_eq!(result, Ok("Hello".to_string()));
}

#[test]
fn child_outlives_parent_handle() {
    let mut tree = Forest::new();
    let root = TreeBox::from(&mut tree, String::from("root"));
    let child = root.create_child(&mut tree, String::from("kid")).unwrap();
    let root_id = root.id();
    tree.release(root);
    assert!(!tree.is_live(root_id));
    assert!(tree.is_live(child.id()));
    assert_eq!(child.get(&tree, |v| v.clone()), Ok(String::from("kid")));
    // The expired parent is skipped, not an error.
    assert_eq!(child.mutate_parent(&mut tree, |v| v + "!"), Ok(()));
    assert_eq!(child.mutate_parent_rec(&mut tree, |v| v + "!"), Ok(()));
}

#[test]
fn released_child_is_not_listed() {
    let mut tree = Forest::new();
    let root = TreeBox::from(&mut tree, String::from("Hello"));
    let world = root.create_child(&mut tree, String::from("World")).unwrap();
    let other = root.create_child(&mut tree, String::from("Other")).unwrap();
    assert_eq!(values(&mut tree, &root), vec!["World", "Other"]);
    tree.release(other);
    assert_eq!(values(&mut tree, &root), vec!["World"]);
    assert_eq!(world.get(&tree, |v| v.len()), Ok(5));
}

#[test]
fn handle_from_children_keeps_record_alive() {
    let mut tree = Forest::new();
    let root = TreeBox::from(&mut tree, String::from("r"));
    let kid = root.create_child(&mut tree, String::from("k")).unwrap();
    let mut found = root.children(&mut tree).unwrap();
    assert_eq!(found.len(), 1);
    let again = found.pop().unwrap();
    assert_eq!(again.id(), kid.id());
    tree.release(kid);
    assert!(tree.is_live(again.id()));
    assert_eq!(again.get(&tree, |v| v.clone()), Ok(String::from("k")));
    let id = again.id();
    tree.release(again);
    assert!(!tree.is_live(id));
}

#[test]
fn set_parent_moves_between_lists() {
    let mut tree = Forest::new();
    let p = TreeBox::from(&mut tree, String::from("P"));
    let q = TreeBox::from(&mut tree, String::from("Q"));
    let n = p.create_child(&mut tree, String::from("N")).unwrap();
    let twin = p.create_child(&mut tree, String::from("N")).unwrap();
    assert_eq!(values(&mut tree, &p), vec!["N", "N"]);
    assert_eq!(n.set_parent(&mut tree, Some(&q)), Ok(()));
    let in_p = p.children(&mut tree).unwrap();
    assert_eq!(in_p.len(), 1);
    assert_eq!(in_p[0].id(), twin.id());
    let in_q = q.children(&mut tree).unwrap();
    assert_eq!(in_q.len(), 1);
    assert_eq!(in_q[0].id(), n.id());
    n.mutate_parent(&mut tree, |v| v + "+").unwrap();
    assert_eq!(q.get(&tree, |v| v.clone()), Ok(String::from("Q+")));
    assert_eq!(p.get(&tree, |v| v.clone()), Ok(String::from("P")));
}

#[test]
fn set_parent_none_detaches() {
    let mut tree = Forest::new();
    let p = TreeBox::from(&mut tree, String::from("P"));
    let n = p.create_child(&mut tree, String::from("N")).unwrap();
    assert_eq!(n.set_parent(&mut tree, None), Ok(()));
    assert!(values(&mut tree, &p).is_empty());
    n.mutate_parent(&mut tree, |v| v + "!").unwrap();
    assert_eq!(p.get(&tree, |v| v.clone()), Ok(String::from("P")));
}

#[test]
fn set_parent_refused_under_guard() {
    let mut tree = Forest::new();
    let p = TreeBox::from(&mut tree, String::from("P"));
    let q = TreeBox::from(&mut tree, String::from("Q"));
    let n = p.create_child(&mut tree, String::from("N")).unwrap();
    let g = p.value(&mut tree).unwrap();
    assert_eq!(n.set_parent(&mut tree, Some(&q)), Err(BorrowError::Exclusive));
    tree.end_read(g);
    let g = q.value(&mut tree).unwrap();
    assert_eq!(n.set_parent(&mut tree, Some(&q)), Err(BorrowError::Exclusive));
    tree.end_read(g);
    // Nothing moved.
    assert_eq!(values(&mut tree, &p), vec!["N"]);
    assert!(values(&mut tree, &q).is_empty());
    assert_eq!(n.set_parent(&mut tree, Some(&q)), Ok(()));
    assert_eq!(values(&mut tree, &q), vec!["N"]);
}

#[test]
fn mutate_inside_read_guard_conflicts() {
    let mut tree = Forest::new();
    let n = TreeBox::from(&mut tree, String::from("v"));
    let g = n.value(&mut tree).unwrap();
    assert_eq!(tree.read(&g), "v");
    assert_eq!(n.mutate(&mut tree, |v| v + "!"), Err(BorrowError::Exclusive));
    // Shared access still works beside a shared guard.
    assert_eq!(n.get(&tree, |v| v.len()), Ok(1));
    tree.end_read(g);
    assert_eq!(n.mutate(&mut tree, |v| v + "!"), Ok(()));
    assert_eq!(n.get(&tree, |v| v.clone()), Ok(String::from("v!")));
}

#[test]
fn write_guard_blocks_everything() {
    let mut tree = Forest::new();
    let n = TreeBox::from(&mut tree, String::from("old"));
    let g = n.value_mut(&mut tree).unwrap();
    assert_eq!(n.get(&tree, |v| v.len()), Err(BorrowError::Shared));
    assert!(matches!(n.value(&mut tree), Err(BorrowError::Shared)));
    assert!(matches!(n.value_mut(&mut tree), Err(BorrowError::Exclusive)));
    assert!(matches!(n.children(&mut tree), Err(BorrowError::Shared)));
    assert!(matches!(n.create_child(&mut tree, String::from("c")), Err(BorrowError::Exclusive)));
    assert_eq!(n.mutate_children(&mut tree, |v| v), Err(BorrowError::Shared));
    assert_eq!(n.mutate_children_rec(&mut tree, |v| v), Err(BorrowError::Exclusive));
    assert_eq!(tree.replace(&g, String::from("new")), "old");
    tree.end_write(g);
    assert_eq!(n.get(&tree, |v| v.clone()), Ok(String::from("new")));
}

#[test]
fn guard_keeps_record_until_ended() {
    let mut tree = Forest::new();
    let n = TreeBox::from(&mut tree, String::from("v"));
    let id = n.id();
    let g = n.value(&mut tree).unwrap();
    tree.release(n);
    assert!(tree.is_live(id));
    assert_eq!(tree.read(&g), "v");
    tree.end_read(g);
    assert!(!tree.is_live(id));
}

#[test]
fn mutate_parent_rec_goes_up_in_order() {
    let mut tree = Forest::new();
    let root = TreeBox::from(&mut tree, String::from("root"));
    let a = root.create_child(&mut tree, String::from("A")).unwrap();
    let b = a.create_child(&mut tree, String::from("B")).unwrap();
    let log = RefCell::new(Vec::new());
    let r = b.mutate_parent_rec(&mut tree, |s| {
        log.borrow_mut().push(s.clone());
        s + "*"
    });
    assert_eq!(r, Ok(()));
    assert_eq!(*log.borrow(), vec!["A", "root"]);
    assert_eq!(a.get(&tree, |v| v.clone()), Ok(String::from("A*")));
    assert_eq!(root.get(&tree, |v| v.clone()), Ok(String::from("root*")));
    assert_eq!(b.get(&tree, |v| v.clone()), Ok(String::from("B")));
    log.borrow_mut().clear();
    assert_eq!(
        root.mutate_parent_rec(&mut tree, |s| {
            log.borrow_mut().push(s.clone());
            s
        }),
        Ok(())
    );
    assert!(log.borrow().is_empty());
}

#[test]
fn mutate_parent_rec_refuses_guarded_ancestor() {
    let mut tree = Forest::new();
    let root = TreeBox::from(&mut tree, String::from("root"));
    let a = root.create_child(&mut tree, String::from("A")).unwrap();
    let b = a.create_child(&mut tree, String::from("B")).unwrap();
    let g = root.value(&mut tree).unwrap();
    assert_eq!(b.mutate_parent_rec(&mut tree, |s| s + "*"), Err(BorrowError::Exclusive));
    tree.end_read(g);
    // Nothing was changed by the refused call.
    assert_eq!(a.get(&tree, |v| v.clone()), Ok(String::from("A")));
}

#[test]
fn cycle_is_a_conflict() {
    let mut tree = Forest::new();
    let root = TreeBox::from(&mut tree, String::from("root"));
    let a = root.create_child(&mut tree, String::from("A")).unwrap();
    assert_eq!(root.set_parent(&mut tree, Some(&a)), Ok(()));
    assert_eq!(a.mutate_parent_rec(&mut tree, |s| s + "*"), Err(BorrowError::Exclusive));
    assert_eq!(a.mutate_children_rec(&mut tree, |s| s + "*"), Err(BorrowError::Exclusive));
    assert_eq!(root.get(&tree, |v| v.clone()), Ok(String::from("root")));
}

#[test]
fn mutate_children_rec_is_pre_order() {
    let mut tree = Forest::new();
    let root = TreeBox::from(&mut tree, String::from("r"));
    let c1 = root.create_child(&mut tree, String::from("c1")).unwrap();
    let g11 = c1.create_child(&mut tree, String::from("c1.1")).unwrap();
    let _g111 = g11.create_child(&mut tree, String::from("c1.1.1")).unwrap();
    let _c2 = root.create_child(&mut tree, String::from("c2")).unwrap();
    let _g12 = c1.create_child(&mut tree, String::from("c1.2")).unwrap();
    let gone = root.create_child(&mut tree, String::from("gone")).unwrap();
    tree.release(gone);
    let log = RefCell::new(Vec::new());
    let r = root.mutate_children_rec(&mut tree, |s| {
        log.borrow_mut().push(s.clone());
        s.to_uppercase()
    });
    assert_eq!(r, Ok(()));
    assert_eq!(*log.borrow(), vec!["c1", "c1.1", "c1.1.1", "c1.2", "c2"]);
    assert_eq!(root.get(&tree, |v| v.clone()), Ok(String::from("r")));
    assert_eq!(g11.get(&tree, |v| v.clone()), Ok(String::from("C1.1")));
}

#[test]
fn mutate_children_only_one_level() {
    let mut tree = Forest::new();
    let root = TreeBox::from(&mut tree, 1u64);
    let c1 = root.create_child(&mut tree, 10u64).unwrap();
    let c2 = root.create_child(&mut tree, 20u64).unwrap();
    let g = c1.create_child(&mut tree, 100u64).unwrap();
    assert_eq!(root.mutate_children(&mut tree, |v| v + 1), Ok(()));
    assert_eq!(c1.get(&tree, |v| *v), Ok(11));
    assert_eq!(c2.get(&tree, |v| *v), Ok(21));
    assert_eq!(g.get(&tree, |v| *v), Ok(100));
    assert_eq!(root.get(&tree, |v| *v), Ok(1));
    let guard = c2.value(&mut tree).unwrap();
    assert_eq!(root.mutate_children(&mut tree, |v| v + 1), Err(BorrowError::Exclusive));
    tree.end_read(guard);
    assert_eq!(c1.get(&tree, |v| *v), Ok(11));
}

#[test]
fn get_parent_rec_combines_each_level() {
    let mut tree = Forest::new();
    let root = TreeBox::from(&mut tree, (Some(7u64), 0u64));
    let a = root.create_child(&mut tree, (None, 1u64)).unwrap();
    let b = a.create_child(&mut tree, (None, 2u64)).unwrap();
    let r = b.get_parent_rec(&tree, |v| v.0, |v, up| up.unwrap_or(100) * 10 + v.1);
    assert_eq!(r, Ok((7 * 10 + 1) * 10 + 2));
    let lone = TreeBox::from(&mut tree, (None, 5u64));
    let r = lone.get_parent_rec(&tree, |v| v.0, |v, up| up.unwrap_or(100) * 10 + v.1);
    assert_eq!(r, Ok(1005));
    let own = a.get_parent_rec(&tree, |v| v.0.or(Some(v.1 + 40)), |_, up| up.unwrap());
    assert_eq!(own, Ok(41));
}

#[test]
fn get_parent_rec_refused_under_write_guard() {
    let mut tree = Forest::new();
    let root = TreeBox::from(&mut tree, Some(1u64));
    let a = root.create_child(&mut tree, None).unwrap();
    let g = root.value_mut(&mut tree).unwrap();
    assert_eq!(a.get_parent_rec(&tree, |v| *v, |_, up| up.unwrap_or(0)), Err(BorrowError::Shared));
    tree.end_write(g);
    assert_eq!(a.get_parent_rec(&tree, |v| *v, |_, up| up.unwrap_or(0)), Ok(1));
}

#[test]
fn end_to_end() {
    let mut tree = Forest::new();
    let root = TreeBox::from(&mut tree, String::from("Hello"));
    let world = root.create_child(&mut tree, String::from("World")).unwrap();
    assert_eq!(values(&mut tree, &root), vec!["World"]);
    let other = root.create_child(&mut tree, String::from("Other")).unwrap();
    tree.release(other);
    assert_eq!(values(&mut tree, &root), vec!["World"]);

    let mut t2: Forest<Option<String>> = Forest::new();
    let top = TreeBox::from(&mut t2, Some(String::from("Hello")));
    let mid = top.create_child(&mut t2, None).unwrap();
    let low = mid.create_child(&mut t2, None).unwrap();
    let r = low.get_parent_rec(&t2, |s| s.clone(), |_, p| p.unwrap_or(String::from("none")));
    assert_eq!(r, Ok(String::from("Hello")));
    assert_eq!(world.get(&tree, |v| v.clone()), Ok(String::from("World")));
}

#[test]
fn create_child_refused_under_read_guard() {
    let mut tree = Forest::new();
    let p = TreeBox::from(&mut tree, String::from("P"));
    let g = p.value(&mut tree).unwrap();
    assert!(matches!(p.create_child(&mut tree, String::from("c")), Err(BorrowError::Exclusive)));
    assert_eq!(tree.len(), 1);
    tree.end_read(g);
    assert!(values(&mut tree, &p).is_empty());
    let c = p.create_child(&mut tree, String::from("c")).unwrap();
    assert_eq!(c.id(), 1);
    assert_eq!(values(&mut tree, &p), vec!["c"]);
}

#[test]
fn get_parent_rec_answers_below_write_guard() {
    let mut tree = Forest::new();
    let root = TreeBox::from(&mut tree, 1u64);
    let a = root.create_child(&mut tree, 2u64).unwrap();
    let g = root.value_mut(&mut tree).unwrap();
    let r = a.get_parent_rec(&tree, |v| Some(*v * 10), |_, _| 0);
    assert_eq!(r, Ok(20));
    // Asking for the parent does reach the guarded record.
    let r = a.get_parent_rec(&tree, |_| None, |v, up| up.unwrap_or(0) + *v);
    assert_eq!(r, Err(BorrowError::Shared));
    tree.end_write(g);
    let r = a.get_parent_rec(&tree, |_| None, |v, up| up.unwrap_or(0) + *v);
    assert_eq!(r, Ok(3));
}

#[test]
fn released_child_subtree_is_skipped() {
    let mut tree = Forest::new();
    let p = TreeBox::from(&mut tree, String::from("p"));
    let c = p.create_child(&mut tree, String::from("c")).unwrap();
    let d = c.create_child(&mut tree, String::from("d")).unwrap();
    let e = p.create_child(&mut tree, String::from("e")).unwrap();
    tree.release(c);
    let log = RefCell::new(Vec::new());
    let r = p.mutate_children_rec(&mut tree, |s| {
        log.borrow_mut().push(s.clone());
        s + "!"
    });
    assert_eq!(r, Ok(()));
    assert_eq!(*log.borrow(), vec!["e"]);
    assert_eq!(d.get(&tree, |v| v.clone()), Ok(String::from("d")));
    assert_eq!(e.get(&tree, |v| v.clone()), Ok(String::from("e!")));
    log.borrow_mut().clear();
    assert_eq!(
        p.mutate_children(&mut tree, |s| {
            log.borrow_mut().push(s.clone());
            s
        }),
        Ok(())
    );
    assert_eq!(*log.borrow(), vec!["e!"]);
}
