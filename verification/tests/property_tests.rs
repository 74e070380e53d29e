use taskbroker::authentication::Authentication;
use taskbroker::internal_queue_file_manager::{
    InternalQueueFileManager, LogFile, StoreEffect,
};
use taskbroker::models::{Priority, QueueItem, Tags};
use taskbroker::queue_server::QueueServer;

fn caps(names: Vec<&str>) -> Vec<String> {
    names.into_iter().map(|s| s.to_string()).collect()
}

#[test]
fn tag_sets_ignore_order_and_repeats() {
    let mut a = Tags::new();
    a.add_tag("x".to_string());
    a.add_tag("y".to_string());
    a.add_tag("x".to_string());
    let b = Tags::from(caps(vec!["y", "x"]));
    assert!(a.is_subset(&b));
    assert!(a.is_superset(&b));
    assert!(b.is_subset(&a));
}

#[test]
fn broader_capabilities_still_deliver_what_narrower_ones_would() {
    // The same single message, offered to a narrower and to a broader
    // consumer: the broader one gets it too.
    for capabilities in [caps(vec!["a"]), caps(vec!["a", "b"])] {
        let mut qs = QueueServer::new().unwrap();
        qs.enqueue(b"m".to_vec(), Priority::High, caps(vec!["a"]))
            .unwrap();
        assert!(qs.pop(capabilities, false).unwrap().is_some());
    }
    // A consumer below the requirement gets nothing.
    let mut qs = QueueServer::new().unwrap();
    qs.enqueue(b"m".to_vec(), Priority::High, caps(vec!["a"]))
        .unwrap();
    assert!(qs.pop(vec![], false).unwrap().is_none());
}

#[test]
fn reload_keeps_the_first_of_duplicate_users() {
    let mut a = Authentication::with_cost(6);
    a.add_user("u".to_string(), "first".to_string()).unwrap();
    let mut bytes = a.encode_users();
    // A second record under the same name, as a corrupted or replayed file
    // might hold.
    let mut b = Authentication::with_cost(6);
    b.add_user("u".to_string(), "second".to_string()).unwrap();
    bytes.extend_from_slice(&b.encode_users());

    let reloaded = Authentication::from_encoded(&bytes, 6);
    assert!(reloaded.verify_user("u", "first").unwrap());
    assert!(!reloaded.verify_user("u", "second").unwrap());
}

#[test]
fn reload_drops_a_torn_tail_but_keeps_whole_records() {
    let mut manager = InternalQueueFileManager::new(true);
    let item1 = QueueItem::new(b"whole".to_vec(), Tags::new(), Priority::High);
    let item2 = QueueItem::new(b"torn".to_vec(), Tags::new(), Priority::High);
    manager.save_item(&item1).unwrap();
    manager.save_item(&item2).unwrap();

    let (high, low, completed) = manager.contents();
    // The last record's final byte never reached the disk.
    let torn = high[..high.len() - 1].to_vec();

    let manager = InternalQueueFileManager::from_contents(torn, low, completed, true);
    let loaded = manager.load_items().unwrap();
    assert_eq!(loaded.high_priority.len(), 1);
    assert_eq!(loaded.high_priority[0], item1);
}

#[test]
fn effects_mirror_the_log_appends() {
    let mut manager = InternalQueueFileManager::new(true);
    let item = QueueItem::new(b"foo".to_vec(), Tags::new(), Priority::Low);
    manager.save_item(&item).unwrap();
    manager.mark_as_completed(item.id).unwrap();

    let effects = manager.take_effects();
    assert_eq!(effects.len(), 2);
    match &effects[0] {
        StoreEffect::Append(target, bytes, flush) => {
            assert_eq!(*target, LogFile::Low);
            assert!(!bytes.is_empty());
            assert!(*flush);
        }
        _ => panic!("expected an append to the low-priority log"),
    }
    match &effects[1] {
        StoreEffect::Append(target, _, flush) => {
            assert_eq!(*target, LogFile::Completed);
            assert!(*flush);
        }
        _ => panic!("expected an append to the completion log"),
    }
    assert!(manager.take_effects().is_empty());

    manager.flush_data().unwrap();
    let effects = manager.take_effects();
    assert_eq!(effects.len(), 1);
    assert!(matches!(effects[0], StoreEffect::FlushAll));
}
