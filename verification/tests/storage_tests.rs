//! The sparse per-id component storages.
use std::sync::Arc;

use ovis_core::{
    IdMappedResourceSliceStorage, IdMappedResourceStorage, StandardVersionedIndexId,
};

struct Plain(u32);

#[test]
fn mod_test() {
    type Id = StandardVersionedIndexId;
    let mut resource_storage =
        IdMappedResourceStorage::<Plain>::new(StandardVersionedIndexId::from_index(100));

    let id = Id::from_index(0);
    assert!(resource_storage.insert(id, Plain(100)).is_none());

    let recv = resource_storage.get(id);
    assert!(recv.is_some());
    assert_eq!(recv.unwrap().0, 100);

    let recv = resource_storage.insert(id, Plain(200));
    assert!(recv.is_some());
    assert_eq!(recv.unwrap().0, 100);

    let recv = resource_storage.remove(id);
    assert!(recv.is_some());
    assert_eq!(recv.unwrap().0, 200);

    let recv = resource_storage.get(id);
    assert!(recv.is_none());
}

struct Shared(Arc<u32>);

#[test]
fn resource_test() {
    type Id = StandardVersionedIndexId;
    let mut resource_storage =
        IdMappedResourceStorage::<Shared>::new(StandardVersionedIndexId::from_index(100));

    let id = Id::from_index(0);
    assert!(resource_storage.insert(id, Shared(Arc::new(100))).is_none());

    let recv = resource_storage.get(id);
    assert!(recv.is_some());
    assert_eq!(*recv.unwrap().0, 100);

    let recv = resource_storage.insert(id, Shared(Arc::new(200)));
    assert!(recv.is_some());
    assert_eq!(*recv.unwrap().0, 100);

    let recv = resource_storage.remove(id);
    assert!(recv.is_some());
    assert_eq!(*recv.unwrap().0, 200);

    let recv = resource_storage.get(id);
    assert!(recv.is_none());
}

#[test]
fn sparse_store_round_trip_with_holes() {
    type Id = StandardVersionedIndexId;
    let mut storage = IdMappedResourceStorage::<u32>::new(Id::from_index(0));
    for i in 0..10000u32 {
        let id = Id::from_index_and_version(i as usize, 0);
        assert!(storage.insert(id, i).is_none());
    }
    for i in (0..10000u32).step_by(2) {
        let id = Id::from_index_and_version(i as usize, 0);
        assert_eq!(storage.remove(id), Some(i));
    }
    let pairs = storage.iter();
    assert_eq!(pairs.len(), 5000);
    for (id, value) in &pairs {
        assert_eq!(id.index() % 2, 1);
        assert_eq!(id.index(), **value as usize);
    }
    for i in 0..10000u32 {
        let id = Id::from_index_and_version(i as usize, 0);
        if i % 2 == 0 {
            assert!(storage.get(id).is_none());
        } else {
            assert_eq!(storage.get(id), Some(&i));
        }
    }
}

#[test]
fn removed_dense_slots_are_reused() {
    type Id = StandardVersionedIndexId;
    let mut storage = IdMappedResourceStorage::<u32>::new(Id::from_index(0));
    let a = Id::from_index(0);
    let b = Id::from_index(1);
    let c = Id::from_index(2);
    assert!(storage.insert(a, 10).is_none());
    assert!(storage.insert(b, 11).is_none());
    assert_eq!(storage.remove(a), Some(10));
    assert!(storage.insert(c, 12).is_none());
    assert_eq!(storage.get(b), Some(&11));
    assert_eq!(storage.get(c), Some(&12));
    assert!(storage.get(a).is_none());
    assert_eq!(storage.iter().len(), 2);
}

#[derive(Clone, Copy, Debug, PartialEq, Eq, Hash, PartialOrd, Ord)]
struct TestResource {
    number: u32,
}

#[test]
fn inserting_works() {
    let mut storage =
        IdMappedResourceSliceStorage::<TestResource>::new(StandardVersionedIndexId::from_index(
            0,
        ));

    let mut resources = Vec::<TestResource>::new();
    for i in 0..10000000 {
        resources.push(TestResource { number: i });
    }
    assert_eq!(resources.len(), 10000000);

    let entity = StandardVersionedIndexId::from_index_and_version(0, 0);
    storage.insert_slice(entity, resources.clone());

    let slice = storage.get(entity);
    assert!(slice.is_some());
    let slice = slice.unwrap();
    assert_eq!(slice.len(), resources.len());
    for (i, item) in slice.iter().enumerate() {
        assert_eq!(**item, resources[i]);
    }
}

#[test]
fn slice_blocks_grow_and_are_reused() {
    type Id = StandardVersionedIndexId;
    let mut storage = IdMappedResourceSliceStorage::<u32>::new(Id::from_index(0));
    let a = Id::from_index(0);
    let b = Id::from_index(1);
    storage.insert_slice(a, vec![1, 2, 3]);
    storage.insert_slice(b, vec![9]);
    storage.push(a, 4);
    let got_a: Vec<u32> = storage.get(a).unwrap().into_iter().copied().collect();
    assert_eq!(got_a, vec![1, 2, 3, 4]);
    let got_b: Vec<u32> = storage.get(b).unwrap().into_iter().copied().collect();
    assert_eq!(got_b, vec![9]);

    storage.remove(a);
    assert!(storage.get(a).is_none());
    storage.insert_slice(a, vec![7, 8]);
    let got_a: Vec<u32> = storage.get(a).unwrap().into_iter().copied().collect();
    assert_eq!(got_a, vec![7, 8]);
    let got_b: Vec<u32> = storage.get(b).unwrap().into_iter().copied().collect();
    assert_eq!(got_b, vec![9]);
}

#[test]
fn push_into_empty_slice_storage_creates_a_block() {
    type Id = StandardVersionedIndexId;
    let mut storage = IdMappedResourceSliceStorage::<u32>::new(Id::from_index(0));
    let a = Id::from_index(5);
    storage.push(a, 11);
    storage.push(a, 12);
    let got: Vec<u32> = storage.get(a).unwrap().into_iter().copied().collect();
    assert_eq!(got, vec![11, 12]);
}

#[test]
fn remove_of_absent_id_is_none() {
    type Id = StandardVersionedIndexId;
    let mut storage = IdMappedResourceStorage::<u32>::new(Id::from_index(0));
    assert!(storage.remove(Id::from_index(3)).is_none());
    assert!(storage.insert(Id::from_index(3), 1).is_none());
    assert!(storage.remove(Id::from_index(7)).is_none());
    assert_eq!(storage.remove(Id::from_index(3)), Some(1));
    assert!(storage.remove(Id::from_index(3)).is_none());
}

#[test]
fn adjacent_freed_blocks_coalesce_for_reuse() {
    type Id = StandardVersionedIndexId;
    let mut storage = IdMappedResourceSliceStorage::<u32>::new(Id::from_index(0));
    let a = Id::from_index(0);
    let b = Id::from_index(1);
    let c = Id::from_index(2);
    storage.insert_slice(a, vec![1, 2]);
    storage.insert_slice(b, vec![3, 4]);
    storage.remove(a);
    storage.remove(b);
    storage.insert_slice(c, vec![5, 6, 7, 8]);
    let got: Vec<u32> = storage.get(c).unwrap().into_iter().copied().collect();
    assert_eq!(got, vec![5, 6, 7, 8]);
    assert!(storage.get(a).is_none());
    assert!(storage.get(b).is_none());
}
