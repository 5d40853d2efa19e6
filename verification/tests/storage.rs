use tb_ecs::storage::dense_storage::DenseStorage;
use tb_ecs::storage::hash_map_storage::HashMapStorage;
use tb_ecs::storage::tag_storage::TagStorage;
use tb_ecs::storage::vec_storage::VecStorage;
use tb_ecs::storage::Id;

#[test]
fn insert() {
    let mut storage = DenseStorage::<i32>::new();
    storage.insert(Id::new(3), 3);
    assert_eq!(storage.open().1.indices.len(), 1);
    assert_eq!(*storage.get(Id::new(3)), 3);
    assert_eq!(*storage.get_mut(Id::new(3)), 3);
    storage.insert(Id::new(1), 1);
    assert_eq!(storage.open().1.indices.len(), 3);
    assert_eq!(storage.open().1.indices[0], 1);
    assert_eq!(storage.open().1.indices[2], 0);
    assert_eq!(*storage.get(Id::new(1)), 1);
    assert_eq!(*storage.get(Id::new(3)), 3);
    storage.insert(Id::new(0), 0);
    assert_eq!(storage.open().1.indices.len(), 4);
    assert_eq!(*storage.get(Id::new(1)), 1);
    assert_eq!(*storage.get(Id::new(3)), 3);
    assert_eq!(*storage.get(Id::new(0)), 0);
    assert!(storage.contains(Id::new(3)));

    let mut storage = DenseStorage::<i32>::new();
    storage.insert(Id::new(4), 4);
    storage.insert(Id::new(3), 3);
    storage.insert(Id::new(2), 2);
    storage.insert(Id::new(8), 8);
    storage.insert(Id::new(6), 6);
    assert_eq!(storage.open().1.data, vec![4, 3, 2, 8, 6]);
    assert_eq!(storage.open().1.data_id, vec![4, 3, 2, 8, 6]);
    assert_eq!(storage.open().1.base_id, Some(2));
    assert_eq!(storage.open().1.indices[0], 2);
    assert_eq!(storage.open().1.indices[1], 1);
    assert_eq!(storage.open().1.indices[2], 0);
    assert_eq!(storage.open().1.indices[4], 4);
    assert_eq!(storage.open().1.indices[6], 3);
}

#[test]
fn remove() {
    let mut storage = DenseStorage::<u32>::new();
    storage.insert(Id::new(4), 4);
    storage.insert(Id::new(3), 3);
    storage.insert(Id::new(2), 2);
    storage.insert(Id::new(8), 8);
    storage.insert(Id::new(6), 6);
    assert_eq!(storage.open().1.data, vec![4, 3, 2, 8, 6]);
    assert_eq!(storage.open().1.data_id, vec![4, 3, 2, 8, 6]);
    assert_eq!(storage.open().1.base_id, Some(2));
    assert_eq!(storage.open().1.indices[0], 2);
    assert_eq!(storage.open().1.indices[1], 1);
    assert_eq!(storage.open().1.indices[2], 0);
    assert_eq!(storage.open().1.indices[4], 4);
    assert_eq!(storage.open().1.indices[6], 3);
    assert!(storage.contains(Id::new(3)));

    storage.remove(Id::new(3));
    assert!(!storage.contains(Id::new(3)));
    assert_eq!(storage.open().1.data, vec![4, 6, 2, 8]);
    assert_eq!(storage.open().1.data_id, vec![4, 6, 2, 8]);
    assert_eq!(storage.open().1.base_id, Some(2));
    assert_eq!(storage.open().1.indices[0], 2);
    assert_eq!(storage.open().1.indices[2], 0);
    assert_eq!(storage.open().1.indices[4], 1);
    assert_eq!(storage.open().1.indices[6], 3);

    storage.remove(Id::new(8));
    assert_eq!(storage.open().1.data, vec![4, 6, 2]);
    assert_eq!(storage.open().1.data_id, vec![4, 6, 2]);
    assert_eq!(storage.open().1.base_id, Some(2));
    assert_eq!(storage.open().1.indices[0], 2);
    assert_eq!(storage.open().1.indices[2], 0);
    assert_eq!(storage.open().1.indices[4], 1);
}

#[derive(Default)]
struct Tag;

#[test]
fn tag_storage_it_works() {
    let mut storage: TagStorage<Tag> = TagStorage::new();
    storage.insert(Id::new(2), Tag);
    assert!(storage.contains(Id::new(2)));
    assert!(!storage.contains(Id::new(3)));
    storage.insert(Id::new(3), Tag);
    assert!(storage.contains(Id::new(3)));
    storage.remove(Id::new(2));
    assert!(!storage.contains(Id::new(2)));
}

#[test]
fn vec_storage_it_works() {
    let mut storage = VecStorage::<i32>::new();
    storage.insert(Id::new(4), 40);
    storage.insert(Id::new(3), 30);
    storage.insert(Id::new(2), 20);
    storage.insert(Id::new(8), 80);
    storage.insert(Id::new(6), 60);
    assert!(storage.contains(Id::new(3)));
    assert_eq!(*storage.get(Id::new(2)), 20);
    assert_eq!(*storage.get(Id::new(3)), 30);
    assert_eq!(*storage.get(Id::new(4)), 40);
    assert_eq!(*storage.get(Id::new(6)), 60);
    assert_eq!(*storage.get(Id::new(8)), 80);

    storage.remove(Id::new(3));
    assert!(!storage.contains(Id::new(3)));
    assert_eq!(*storage.get(Id::new(2)), 20);
    assert_eq!(*storage.get(Id::new(8)), 80);

    *storage.get_mut(Id::new(2)) = 21;
    assert_eq!(*storage.get(Id::new(2)), 21);

    storage.clear();
    assert!(!storage.contains(Id::new(2)));
    assert!(!storage.contains(Id::new(8)));
}

#[test]
fn hash_map_storage_it_works() {
    let mut storage = HashMapStorage::<i32>::new();
    storage.insert(Id::new(4), 40);
    storage.insert(Id::new(8), 80);
    assert!(storage.contains(Id::new(4)));
    assert!(!storage.contains(Id::new(5)));
    assert_eq!(*storage.get(Id::new(4)), 40);
    assert_eq!(*storage.get(Id::new(8)), 80);
    *storage.get_mut(Id::new(8)) = 81;
    assert_eq!(*storage.get(Id::new(8)), 81);
    storage.remove(Id::new(4));
    assert!(!storage.contains(Id::new(4)));
    storage.clear();
    assert!(!storage.contains(Id::new(8)));
}

#[test]
fn insert_remove_round_trip() {
    // An insert followed by a remove leaves the storage observably where
    // it started, for every backing.
    let mut storage = DenseStorage::<i32>::new();
    storage.insert(Id::new(5), 50);
    storage.insert(Id::new(9), 90);
    storage.insert(Id::new(7), 70);
    storage.remove(Id::new(7));
    assert!(!storage.contains(Id::new(7)));
    assert_eq!(*storage.get(Id::new(5)), 50);
    assert_eq!(*storage.get(Id::new(9)), 90);

    // The membership bitset and the data agree after a mixed sequence.
    let mut storage = VecStorage::<i32>::new();
    storage.insert(Id::new(1), 1);
    storage.remove(Id::new(1));
    storage.insert(Id::new(1), 2);
    assert!(storage.contains(Id::new(1)));
    assert_eq!(*storage.get(Id::new(1)), 2);
    assert!(storage.mask().contains(1));
    assert!(!storage.mask().contains(2));
}
