//! Versioned index ids, the generational id storage, and the id map.
use std::rc::Rc;

use ovis_core::{IdMap, IdStorage, StandardVersionedIndexId};

#[test]
fn versioned_index_id_works() {
    type Id = StandardVersionedIndexId;
    let id = Id::from_index(10);
    assert_eq!(id.index(), 10);
    assert_eq!(id.version(), 0);

    let next_id = id.next_version_id();
    assert_eq!(next_id.index(), 10);
    assert_eq!(next_id.version(), 1);

    let wrapped_around = Id::from_index_and_version(23, 255).next_version_id();
    assert_eq!(wrapped_around.index(), 23);
    assert_eq!(wrapped_around.version(), 0);
}

#[test]
fn id_storage_works() {
    type Id = StandardVersionedIndexId;
    let mut storage = IdStorage::new();
    assert_eq!(storage.len(), 0);
    assert_eq!(storage.live_ids(), vec![]);

    let id: Id = storage.reserve();
    assert_eq!(storage.len(), 1);
    assert!(storage.contains(id));
    assert_eq!(storage.live_ids(), vec![id]);

    storage.free(id);
    assert_eq!(storage.len(), 0);
    assert!(!storage.contains(id));
    assert_eq!(storage.live_ids(), vec![]);

    let second_id = storage.reserve();
    assert_eq!(storage.len(), 1);
    assert!(!storage.contains(id));
    assert!(storage.contains(second_id));
    assert_eq!(storage.live_ids(), vec![second_id]);
}

#[test]
fn id_map_works() {
    type T = Rc<i32>;

    let mut map = IdMap::<T>::new();
    assert_eq!(map.len(), 0);
    assert_eq!(map.iter().len(), 0);

    let (id, value) = map.insert(T::new(42));
    assert_eq!(Rc::strong_count(value), 1);
    assert!(map.contains(id));
    assert!(map.get(id).is_some());
    assert_eq!(map.len(), 1);

    let value = map.get(id).expect("should be there").clone();
    assert_eq!(Rc::strong_count(&value), 2);

    {
        let values = map.iter();
        assert_eq!(values.len(), 1);
        assert_eq!(values[0].0, id);
        assert_eq!(*values[0].1.clone(), 42);
    }

    map.remove(id);
    assert_eq!(map.len(), 0);
    assert!(map.get(id).is_none());
    assert_eq!(Rc::strong_count(&value), 1);
}

#[test]
fn reserve_free_reserve_reissues_with_next_version() {
    let mut storage = IdStorage::new();
    let a = storage.reserve();
    let b = storage.reserve();
    let c = storage.reserve();
    assert_eq!(a, StandardVersionedIndexId::from_index_and_version(0, 0));
    assert_eq!(b, StandardVersionedIndexId::from_index_and_version(1, 0));
    assert_eq!(c, StandardVersionedIndexId::from_index_and_version(2, 0));

    storage.free(b);
    let reissued = storage.reserve();
    assert_eq!(reissued, StandardVersionedIndexId::from_index_and_version(1, 1));
    assert!(!storage.contains(b));
    assert!(storage.contains(reissued));
}

#[test]
fn version_space_wraps_after_full_cycle() {
    let mut storage = IdStorage::new();
    let first = storage.reserve();
    storage.free(first);
    let mut last = first;
    for _ in 0..256 {
        last = storage.reserve();
        storage.free(last);
    }
    assert_eq!(last, first);
}

#[test]
fn get_mut_updates_in_place() {
    let mut map = IdMap::<u32>::new();
    let (id, _) = map.insert(7);
    if let Some(v) = map.get_mut(id) {
        *v = 9;
    }
    assert_eq!(map.get(id), Some(&9));
}
