use vizia::cache::{
    BoundingBox, CacheError, CacheRow, CachedData, Display, Transform2D, Visibility, OPAQUE,
    TRANSFORM_ONE,
};
use vizia::entity::Entity;
use vizia::storage::{SparseSet, StorageError};

fn e(index: u32) -> Entity {
    Entity::new(index, 0)
}

fn assert_defaults(cache: &CachedData, entity: Entity) {
    assert_eq!(cache.get_posx(entity), 0);
    assert_eq!(cache.get_posy(entity), 0);
    assert_eq!(cache.get_width(entity), 0);
    assert_eq!(cache.get_height(entity), 0);
    assert_eq!(cache.get_bounds(entity), BoundingBox { x: 0, y: 0, w: 0, h: 0 });
    assert_eq!(cache.get_clip_region(entity), BoundingBox { x: 0, y: 0, w: 0, h: 0 });
    assert_eq!(cache.get_previous(entity), BoundingBox { x: 0, y: 0, w: 0, h: 0 });
    assert_eq!(
        cache.get_transform(entity),
        Transform2D { a: TRANSFORM_ONE, b: 0, c: 0, d: TRANSFORM_ONE, e: 0, f: 0 }
    );
    assert_eq!(cache.get_opacity(entity), OPAQUE);
    assert_eq!(cache.get_opacity(entity), 255);
    assert_eq!(cache.get_z_index(entity), 0);
    assert_eq!(cache.get_visibility(entity), Visibility::Visible);
    assert_eq!(cache.get_display(entity), Display::Shown);
    assert!(cache.get_hoverable(entity));
    assert_eq!(cache.get_row(entity), CacheRow::new());
}

#[test]
fn absent_entity_reads_defaults() {
    let cache = CachedData::new();
    assert_defaults(&cache, e(3));
    assert_defaults(&cache, Entity::root());
    assert_defaults(&cache, Entity::null());
}

#[test]
fn added_entity_starts_with_defaults() {
    let mut cache = CachedData::new();
    assert_eq!(cache.add(e(2)), Ok(()));
    assert!(cache.has(e(2)));
    assert_defaults(&cache, e(2));
}

#[test]
fn removed_entity_reads_defaults_again() {
    let mut cache = CachedData::new();
    cache.add(e(2)).unwrap();
    cache.set_width(e(2), 40);
    cache.set_opacity(e(2), 7);
    cache.set_visibility(e(2), Visibility::Invisible);
    assert_eq!(cache.get_width(e(2)), 40);
    assert!(cache.remove(e(2)));
    assert!(!cache.has(e(2)));
    assert_defaults(&cache, e(2));
    assert!(!cache.remove(e(2)));
}

#[test]
fn setters_write_only_their_field() {
    let mut cache = CachedData::new();
    cache.add(e(1)).unwrap();
    cache.add(e(2)).unwrap();
    cache.set_posx(e(1), -5);
    cache.set_posy(e(1), 6);
    cache.set_width(e(1), 100);
    cache.set_height(e(1), 50);
    cache.set_z_index(e(1), 3);
    cache.set_display(e(1), Display::Gone);
    cache.set_hoverable(e(1), false);
    cache.set_clip_region(e(1), BoundingBox { x: 1, y: 2, w: 3, h: 4 });
    cache.set_transform(e(1), Transform2D { a: 1, b: 2, c: 3, d: 4, e: 5, f: 6 });
    assert_eq!(cache.get_bounds(e(1)), BoundingBox { x: -5, y: 6, w: 100, h: 50 });
    assert_eq!(cache.get_z_index(e(1)), 3);
    assert_eq!(cache.get_display(e(1)), Display::Gone);
    assert!(!cache.get_hoverable(e(1)));
    assert_eq!(cache.get_clip_region(e(1)), BoundingBox { x: 1, y: 2, w: 3, h: 4 });
    assert_eq!(cache.get_transform(e(1)), Transform2D { a: 1, b: 2, c: 3, d: 4, e: 5, f: 6 });
    assert_eq!(cache.get_opacity(e(1)), 255);
    assert_defaults(&cache, e(2));
}

#[test]
fn setter_on_absent_entity_adds_no_row() {
    let mut cache = CachedData::new();
    cache.set_width(e(4), 12);
    assert!(!cache.has(e(4)));
    assert_eq!(cache.get_width(e(4)), 0);
}

#[test]
fn duplicate_row_is_refused() {
    let mut cache = CachedData::new();
    cache.add(e(1)).unwrap();
    cache.set_width(e(1), 9);
    assert_eq!(cache.add(e(1)), Err(CacheError::AlreadyExists));
    assert_eq!(cache.get_width(e(1)), 9);
    assert_eq!(cache.add(Entity::null()), Err(CacheError::InvalidEntity));
}

#[test]
fn stale_handle_reads_defaults() {
    let mut cache = CachedData::new();
    cache.add(Entity::new(5, 2)).unwrap();
    cache.set_height(Entity::new(5, 2), 77);
    assert_eq!(cache.get_height(Entity::new(5, 2)), 77);
    assert_eq!(cache.get_height(Entity::new(5, 1)), 0);
    assert!(!cache.has(Entity::new(5, 1)));
    cache.set_height(Entity::new(5, 1), 3);
    assert_eq!(cache.get_height(Entity::new(5, 2)), 77);
}

#[test]
fn remove_each_drops_listed_rows() {
    let mut cache = CachedData::new();
    cache.add(e(1)).unwrap();
    cache.add(e(2)).unwrap();
    cache.add(e(3)).unwrap();
    cache.set_width(e(3), 8);
    cache.remove_each(&vec![e(1), e(2)]);
    assert!(!cache.has(e(1)));
    assert!(!cache.has(e(2)));
    assert_eq!(cache.get_width(e(3)), 8);
}

#[test]
fn sparse_set_insert_get_remove() {
    let mut set: SparseSet<u32> = SparseSet::new();
    assert_eq!(set.len(), 0);
    assert_eq!(set.insert(e(4), 40), Ok(()));
    assert_eq!(set.insert(e(1), 10), Ok(()));
    assert_eq!(set.insert(e(7), 70), Ok(()));
    assert_eq!(set.len(), 3);
    assert_eq!(set.get(e(1)), Some(&10));
    assert_eq!(set.get(e(2)), None);
    assert_eq!(set.key_at(0), e(4));
    assert_eq!(*set.value_at(2), 70);
    assert_eq!(set.remove(e(4)), Some(40));
    assert_eq!(set.len(), 2);
    // the last row moved into the freed place
    assert_eq!(set.key_at(0), e(7));
    assert_eq!(set.key_at(1), e(1));
    assert_eq!(set.get(e(7)), Some(&70));
    assert_eq!(set.remove(e(4)), None);
}

#[test]
fn sparse_set_answers_only_to_the_exact_handle() {
    let mut set: SparseSet<u32> = SparseSet::new();
    set.insert(Entity::new(3, 0), 1).unwrap();
    assert!(!set.contains_key(Entity::new(3, 1)));
    // storing under the next generation replaces the row of the slot
    set.insert(Entity::new(3, 1), 2).unwrap();
    assert_eq!(set.len(), 1);
    assert_eq!(set.get(Entity::new(3, 0)), None);
    assert_eq!(set.get(Entity::new(3, 1)), Some(&2));
    assert_eq!(set.insert(Entity::null(), 9), Err(StorageError::InvalidKey));
}

#[test]
fn sparse_set_get_mut_changes_in_place() {
    let mut set: SparseSet<Vec<u8>> = SparseSet::new();
    set.insert(e(2), vec![1]).unwrap();
    set.get_mut(e(2)).unwrap().push(2);
    assert_eq!(set.get(e(2)), Some(&vec![1, 2]));
    assert!(set.get_mut(e(3)).is_none());
    set.clear();
    assert_eq!(set.len(), 0);
    assert!(!set.contains_key(e(2)));
}
