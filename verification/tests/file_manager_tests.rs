use taskbroker::codec::{encode_item_vec, read_item};
use taskbroker::internal_queue_file_manager::{InternalQueueFileManager, StoredItems};
use taskbroker::models::{Priority, QueueItem, Tags};

fn tags_of(names: Vec<&str>) -> Tags {
    Tags::from(names.into_iter().map(|s| s.to_string()).collect::<Vec<String>>())
}

#[test]
fn can_save_item() {
    let mut manager = InternalQueueFileManager::new(true);

    manager
        .save_item(&QueueItem::new(
            b"foo".to_vec(),
            tags_of(vec!["foo"]),
            Priority::High,
        ))
        .unwrap();
    manager
        .save_item(&QueueItem::new(
            b"bar".to_vec(),
            tags_of(vec!["foo"]),
            Priority::Low,
        ))
        .unwrap();

    let StoredItems {
        high_priority,
        low_priority,
    } = manager.load_items().unwrap();

    assert_eq!(high_priority.len(), 1);
    assert_eq!(low_priority.len(), 1);

    assert_eq!(high_priority.get(0).unwrap().data, b"foo".to_vec());
    assert_eq!(low_priority.get(0).unwrap().data, b"bar".to_vec());
}

#[test]
fn can_mark_items_as_completed() {
    let mut manager = InternalQueueFileManager::new(true);

    let item = QueueItem::new(b"foo".to_vec(), Tags::new(), Priority::High);

    manager.save_item(&item).unwrap();
    manager
        .save_item(&QueueItem::new(b"bar".to_vec(), Tags::new(), Priority::High))
        .unwrap();

    manager.mark_as_completed(item.id).unwrap();

    let StoredItems {
        high_priority,
        low_priority,
    } = manager.load_items().unwrap();

    assert_eq!(high_priority.len(), 1);
    assert_eq!(low_priority.len(), 0);
    assert_eq!(high_priority.get(0).unwrap().data, b"bar".to_vec());
}

#[test]
fn can_run_garbage_collection() {
    let mut manager = InternalQueueFileManager::new(true);

    let item1 = QueueItem::new(b"foo".to_vec(), Tags::new(), Priority::High);
    let item2 = QueueItem::new(b"bar".to_vec(), Tags::new(), Priority::High);
    let item3 = QueueItem::new(b"baz".to_vec(), Tags::new(), Priority::High);

    manager.save_item(&item1).unwrap();
    manager.save_item(&item2).unwrap();
    manager.save_item(&item3).unwrap();

    manager.mark_as_completed(item1.id).unwrap();

    manager.run_garbage_collection().unwrap();

    // Shut the manager down and rebuild it from the bytes it would leave on
    // disk, as a restart does.
    let (high, low, completed) = manager.contents();
    assert!(completed.is_empty());
    drop(manager);

    let manager = InternalQueueFileManager::from_contents(high, low, completed, true);

    let StoredItems {
        low_priority,
        high_priority,
    } = manager.load_items().unwrap();

    assert_eq!(high_priority.len(), 2);
    assert_eq!(high_priority, vec![item2, item3]);
    assert_eq!(low_priority.len(), 0);
}

#[test]
fn serialize_deserialize() {
    let item1 = QueueItem::new(
        b"foo".to_vec(),
        tags_of(vec!["foo", "bar", "baz"]),
        Priority::High,
    );
    let item2 = QueueItem::new(
        b"bar".to_vec(),
        tags_of(vec!["Cake is fantastic", "I can make icecream"]),
        Priority::Low,
    );

    let mut b1 = encode_item_vec(&item1);
    let mut b2 = encode_item_vec(&item2);

    b1.append(&mut b2);

    let (i1, next) = read_item(&b1, 0).unwrap();
    let (i2, _) = read_item(&b1, next).unwrap();

    assert_eq!(item1.id, i1.id);
    assert_eq!(item1.data, i1.data);
    assert_eq!(item1.required_tags, i1.required_tags);
    assert_eq!(item2.id, i2.id);
    assert_eq!(item2.data, i2.data);
    assert_eq!(item2.required_tags, i2.required_tags);
}

#[test]
fn records_survive_non_ascii_tags() {
    let item = QueueItem::new(
        "p\u{e2}t\u{e9}".as_bytes().to_vec(),
        tags_of(vec!["caf\u{e9}", "\u{2603}"]),
        Priority::Low,
    );
    let bytes = encode_item_vec(&item);
    let (back, used) = read_item(&bytes, 0).unwrap();
    assert_eq!(used, bytes.len());
    assert_eq!(back, item);
}

#[test]
fn truncated_record_is_refused() {
    let item = QueueItem::new(b"foo".to_vec(), tags_of(vec!["foo"]), Priority::High);
    let bytes = encode_item_vec(&item);
    let cut = bytes[..bytes.len() - 1].to_vec();
    assert!(read_item(&cut, 0).is_none());
}

#[test]
fn gc_keeps_items_saved_beside_a_completed_backlog() {
    let mut manager = InternalQueueFileManager::new(true);

    // A committed and completed backlog.
    for i in 0..200 {
        let item = QueueItem::new(
            b"trash".to_vec(),
            Tags::new(),
            if i % 2 == 0 { Priority::High } else { Priority::Low },
        );
        manager.save_item(&item).unwrap();
        manager.mark_as_completed(item.id).unwrap();
    }

    // Fresh messages of each priority.
    let mut fresh_ids = Vec::new();
    for i in 0..10 {
        let item = QueueItem::new(
            b"fresh".to_vec(),
            Tags::new(),
            if i % 2 != 0 { Priority::High } else { Priority::Low },
        );
        manager.save_item(&item).unwrap();
        fresh_ids.push(item.id);
    }

    manager.run_garbage_collection().unwrap();

    let (high, low, completed) = manager.contents();
    let manager = InternalQueueFileManager::from_contents(high, low, completed, true);
    let StoredItems {
        high_priority,
        low_priority,
    } = manager.load_items().unwrap();

    let mut live_ids: Vec<u128> = high_priority.iter().map(|i| i.id).collect();
    live_ids.extend(low_priority.iter().map(|i| i.id));
    live_ids.sort();
    let mut expected = fresh_ids.clone();
    expected.sort();
    assert_eq!(live_ids, expected);
}
