use vizia::entity::{Entity, IdManager};
use vizia::tree::{Tree, TreeError};

fn e(index: u32) -> Entity {
    Entity::new(index, 0)
}

/// root -> a -> (b -> d, c) in this order of insertion
fn sample() -> Tree {
    let mut tree = Tree::new();
    tree.add(e(1), Entity::root()).unwrap();
    tree.add(e(2), e(1)).unwrap();
    tree.add(e(3), e(1)).unwrap();
    tree.add(e(4), e(2)).unwrap();
    tree
}

#[test]
fn new_tree_holds_the_root_alone() {
    let tree = Tree::new();
    assert_eq!(tree.len(), 1);
    assert_eq!(tree.entities(), vec![Entity::root()]);
    assert_eq!(tree.get_parent(Entity::root()), None);
    assert_eq!(tree.ancestors(Entity::root()), vec![Entity::root()]);
}

#[test]
fn add_inserts_as_last_child() {
    let tree = sample();
    assert_eq!(tree.entities(), vec![Entity::root(), e(1), e(2), e(4), e(3)]);
    assert_eq!(tree.get_parent(e(1)), Some(Entity::root()));
    assert_eq!(tree.get_parent(e(2)), Some(e(1)));
    assert_eq!(tree.get_parent(e(3)), Some(e(1)));
    assert_eq!(tree.get_parent(e(4)), Some(e(2)));
    assert_eq!(tree.depth_at(3), 3);
}

#[test]
fn every_entity_but_the_root_has_one_parent() {
    let tree = sample();
    for entity in tree.entities() {
        if entity == Entity::root() {
            assert_eq!(tree.get_parent(entity), None);
        } else {
            let parent = tree.get_parent(entity).unwrap();
            assert!(tree.contains_entity(parent));
            assert_eq!(*tree.ancestors(entity).last().unwrap(), Entity::root());
        }
    }
}

#[test]
fn add_fails_without_parent() {
    let mut tree = sample();
    assert_eq!(tree.add(e(9), e(7)), Err(TreeError::NoParent));
    assert_eq!(tree.len(), 5);
    assert!(!tree.contains_entity(e(9)));
}

#[test]
fn add_fails_for_duplicate_and_null() {
    let mut tree = sample();
    assert_eq!(tree.add(e(2), Entity::root()), Err(TreeError::AlreadyExists));
    assert_eq!(tree.add(Entity::root(), e(1)), Err(TreeError::AlreadyExists));
    assert_eq!(tree.add(Entity::null(), e(1)), Err(TreeError::NullEntity));
    assert_eq!(tree.entities(), vec![Entity::root(), e(1), e(2), e(4), e(3)]);
}

#[test]
fn ancestors_run_from_the_entity_to_the_root() {
    let tree = sample();
    assert_eq!(tree.ancestors(e(4)), vec![e(4), e(2), e(1), Entity::root()]);
    assert_eq!(tree.ancestors(e(3)), vec![e(3), e(1), Entity::root()]);
    assert_eq!(tree.ancestors(e(8)), Vec::<Entity>::new());
}

#[test]
fn branch_is_the_subtree_in_preorder() {
    let tree = sample();
    assert_eq!(tree.branch(e(1)), vec![e(1), e(2), e(4), e(3)]);
    assert_eq!(tree.branch(e(2)), vec![e(2), e(4)]);
    assert_eq!(tree.branch(e(3)), vec![e(3)]);
    assert_eq!(tree.branch(e(8)), Vec::<Entity>::new());
}

#[test]
fn remove_takes_the_whole_subtree() {
    let mut tree = sample();
    let removed = tree.remove(e(2)).unwrap();
    assert_eq!(removed, vec![e(2), e(4)]);
    assert_eq!(tree.entities(), vec![Entity::root(), e(1), e(3)]);
    assert!(!tree.contains_entity(e(2)));
    assert!(!tree.contains_entity(e(4)));
    assert_eq!(tree.get_parent(e(3)), Some(e(1)));
    assert_eq!(tree.ancestors(e(4)), Vec::<Entity>::new());
}

#[test]
fn remove_leaves_no_descendant_reachable() {
    let mut tree = sample();
    let removed = tree.remove(e(1)).unwrap();
    assert_eq!(removed, vec![e(1), e(2), e(4), e(3)]);
    assert_eq!(tree.entities(), vec![Entity::root()]);
    for entity in removed {
        assert!(!tree.contains_entity(entity));
        assert_eq!(tree.get_parent(entity), None);
    }
}

#[test]
fn remove_fails_for_root_and_absent() {
    let mut tree = sample();
    assert_eq!(tree.remove(Entity::root()), Err(TreeError::IsRoot));
    assert_eq!(tree.remove(e(9)), Err(TreeError::NotFound));
    assert_eq!(tree.len(), 5);
}

#[test]
fn stale_generation_is_absent_from_the_tree() {
    let mut tree = Tree::new();
    tree.add(Entity::new(1, 1), Entity::root()).unwrap();
    assert!(tree.contains_entity(Entity::new(1, 1)));
    assert!(!tree.contains_entity(Entity::new(1, 0)));
    assert_eq!(tree.get_parent(Entity::new(1, 0)), None);
    assert_eq!(tree.add(e(5), Entity::new(1, 0)), Err(TreeError::NoParent));
    assert_eq!(tree.remove(Entity::new(1, 0)), Err(TreeError::NotFound));
}

#[test]
fn snapshot_is_independent() {
    let mut tree = sample();
    let copy = tree.snapshot();
    tree.remove(e(1)).unwrap();
    assert_eq!(copy.entities(), vec![Entity::root(), e(1), e(2), e(4), e(3)]);
    assert_eq!(tree.entities(), vec![Entity::root()]);
}

#[test]
fn id_manager_issues_root_first() {
    let mut ids = IdManager::new();
    assert_eq!(ids.create(), Some(Entity::root()));
    assert_eq!(ids.create(), Some(Entity::new(1, 0)));
    assert!(ids.is_alive(Entity::root()));
    assert!(!ids.is_alive(Entity::null()));
}

#[test]
fn id_manager_reuses_slot_with_next_generation() {
    let mut ids = IdManager::new();
    ids.create();
    let a = ids.create().unwrap();
    let b = ids.create().unwrap();
    assert!(ids.destroy(a));
    assert!(!ids.is_alive(a));
    let c = ids.create().unwrap();
    assert_eq!(c, Entity::new(a.index(), a.generation() + 1));
    assert!(ids.is_alive(c));
    assert!(!ids.is_alive(a));
    assert!(ids.is_alive(b));
    assert!(!ids.destroy(a));
    assert!(ids.is_alive(c));
}

#[test]
fn destroy_each_destroys_all_listed() {
    let mut ids = IdManager::new();
    let r = ids.create().unwrap();
    let a = ids.create().unwrap();
    let b = ids.create().unwrap();
    ids.destroy_each(&vec![a, b]);
    assert!(ids.is_alive(r));
    assert!(!ids.is_alive(a));
    assert!(!ids.is_alive(b));
}

#[test]
fn null_and_root_are_distinct() {
    assert!(Entity::null().is_null());
    assert!(!Entity::root().is_null());
    assert_eq!(Entity::root().index(), 0);
    assert_eq!(Entity::root().generation(), 0);
}

#[test]
fn children_are_listed_in_order_of_insertion() {
    let mut tree = sample();
    assert_eq!(tree.children(Entity::root()), vec![e(1)]);
    assert_eq!(tree.children(e(1)), vec![e(2), e(3)]);
    assert_eq!(tree.children(e(2)), vec![e(4)]);
    assert_eq!(tree.children(e(4)), Vec::<Entity>::new());
    assert_eq!(tree.children(e(9)), Vec::<Entity>::new());
    tree.add(e(5), e(1)).unwrap();
    tree.add(e(6), e(2)).unwrap();
    assert_eq!(tree.children(e(1)), vec![e(2), e(3), e(5)]);
    assert_eq!(tree.children(e(2)), vec![e(4), e(6)]);
    assert_eq!(tree.entities(), vec![Entity::root(), e(1), e(2), e(4), e(6), e(3), e(5)]);
    for child in tree.children(e(1)) {
        assert_eq!(tree.get_parent(child), Some(e(1)));
    }
}

#[test]
fn positions_follow_the_outline() {
    let tree = sample();
    assert_eq!(tree.position(e(4)), Some(3));
    assert_eq!(tree.position(e(7)), None);
    assert_eq!(tree.parent_position(3), 2);
    assert_eq!(tree.parent_position(4), 1);
    assert_eq!(tree.subtree_end_position(1), 5);
    assert_eq!(tree.subtree_end_position(2), 4);
    assert_eq!(tree.subtree_end_position(0), 5);
    assert_eq!(tree.entity_at(4), e(3));
    assert_eq!(tree.depth_at(4), 2);
}

#[test]
fn id_manager_reuses_the_slot_given_up_last() {
    let mut ids = IdManager::new();
    ids.create();
    let a = ids.create().unwrap();
    let b = ids.create().unwrap();
    ids.destroy(a);
    ids.destroy(b);
    assert_eq!(ids.create(), Some(Entity::new(b.index(), 1)));
    assert_eq!(ids.create(), Some(Entity::new(a.index(), 1)));
    assert_eq!(ids.create(), Some(Entity::new(3, 0)));
}
