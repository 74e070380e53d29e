use taskbroker::models::Priority;
use taskbroker::queue_server::QueueServer;

fn caps(names: Vec<&str>) -> Vec<String> {
    names.into_iter().map(|s| s.to_string()).collect()
}

#[test]
fn enqueue_and_pop_without_wait_for_message() {
    let mut qs = QueueServer::new().expect("Failed to create queue server");

    qs.enqueue(b"foo".to_vec(), Priority::High, caps(vec!["foo"]))
        .unwrap();
    qs.enqueue(b"bar".to_vec(), Priority::High, caps(vec!["bar"]))
        .unwrap();

    assert_eq!(
        qs.pop(caps(vec!["foo", "bar"]), false).unwrap().unwrap().data,
        b"foo".to_vec()
    );
    assert_eq!(
        qs.pop(caps(vec!["foo", "bar"]), false).unwrap().unwrap().data,
        b"bar".to_vec()
    );

    assert!(qs.pop(caps(vec!["foo", "bar"]), false).unwrap().is_none());
}

#[test]
fn acknowledge_will_remove() {
    let mut qs = QueueServer::new().expect("Failed to create queue server");

    let id = qs
        .enqueue(b"foo".to_vec(), Priority::High, vec![])
        .expect("Failed to enqueue task");

    let item = qs
        .pop(vec![], false)
        .expect("Failed to pop item")
        .expect("Not item received");

    assert_eq!(item.id, id.id);

    qs.acknowledge(id.id).expect("Failed to acknowledge task");

    assert!(qs.pop(vec![], false).unwrap().is_none());
}

#[test]
fn fail_will_re_enqueue() {
    let mut qs = QueueServer::new().expect("Failed to create queue server");

    let id = qs
        .enqueue(b"foo".to_vec(), Priority::High, vec![])
        .expect("Failed to enqueue task");

    let item = qs
        .pop(vec![], false)
        .expect("Failed to pop item")
        .expect("Not item received");

    assert_eq!(item.id, id.id);

    qs.fail(id.id).expect("Failed to fail task");

    assert_eq!(qs.pop(vec![], false).unwrap().unwrap().id, item.id);
}

#[test]
fn opholds_priority() {
    let mut qs = QueueServer::new().expect("Failed to create queue server");

    qs.enqueue(b"foo".to_vec(), Priority::High, vec![])
        .expect("Failed to enqueue");
    qs.enqueue(b"bar".to_vec(), Priority::Low, vec![])
        .expect("Failed to enqueue");
    qs.enqueue(b"baz".to_vec(), Priority::High, vec![])
        .expect("Failed to enqueue");

    assert_eq!(qs.pop(vec![], false).unwrap().unwrap().data, b"foo".to_vec());
    assert_eq!(qs.pop(vec![], false).unwrap().unwrap().data, b"baz".to_vec());
    assert_eq!(qs.pop(vec![], false).unwrap().unwrap().data, b"bar".to_vec());
}

#[test]
fn pop_with_wait_returns_at_once_when_queued() {
    let mut qs = QueueServer::new().unwrap();
    qs.enqueue(b"baz".to_vec(), Priority::High, caps(vec!["foo"]))
        .unwrap();
    assert_eq!(
        qs.pop(caps(vec!["foo", "bar"]), true).unwrap().unwrap().data,
        b"baz".to_vec()
    );
}

#[test]
fn acknowledge_is_idempotent() {
    let mut qs = QueueServer::new().unwrap();
    let id = qs.enqueue(b"foo".to_vec(), Priority::High, vec![]).unwrap();
    qs.pop(vec![], false).unwrap().unwrap();

    qs.acknowledge(id.id).unwrap();
    qs.acknowledge(id.id).unwrap();

    assert!(qs.pop(vec![], false).unwrap().is_none());

    // Restart still owes nothing.
    let manager = qs.into_manager();
    let mut qs = QueueServer::with_manager(manager).unwrap();
    assert!(qs.pop(vec![], false).unwrap().is_none());
}

#[test]
fn restart_reconstructs_unacknowledged_messages() {
    let mut qs = QueueServer::new().unwrap();
    let i1 = qs.enqueue(b"one".to_vec(), Priority::High, vec![]).unwrap();
    let i2 = qs.enqueue(b"two".to_vec(), Priority::High, vec![]).unwrap();
    let i3 = qs.enqueue(b"three".to_vec(), Priority::Low, vec![]).unwrap();

    let popped = qs.pop(vec![], false).unwrap().unwrap();
    assert_eq!(popped.id, i1.id);
    qs.acknowledge(i1.id).unwrap();
    qs.flush_data().unwrap();

    let manager = qs.into_manager();
    let mut qs = QueueServer::with_manager(manager).unwrap();

    assert_eq!(qs.pop(vec![], false).unwrap().unwrap().id, i2.id);
    assert_eq!(qs.pop(vec![], false).unwrap().unwrap().id, i3.id);
    assert!(qs.pop(vec![], false).unwrap().is_none());
}

#[test]
fn compaction_keeps_live_messages_in_order() {
    let mut qs = QueueServer::new().unwrap();
    let i1 = qs.enqueue(b"one".to_vec(), Priority::High, vec![]).unwrap();
    let i2 = qs.enqueue(b"two".to_vec(), Priority::High, vec![]).unwrap();
    let i3 = qs.enqueue(b"three".to_vec(), Priority::High, vec![]).unwrap();

    let popped = qs.pop(vec![], false).unwrap().unwrap();
    assert_eq!(popped.id, i1.id);
    qs.acknowledge(i1.id).unwrap();

    qs.run_garbage_collection().unwrap();

    let manager = qs.into_manager();
    let (high, low, completed) = manager.contents();
    assert!(completed.is_empty());
    assert!(low.is_empty());

    let manager = taskbroker::internal_queue_file_manager::InternalQueueFileManager::from_contents(
        high, low, completed, true,
    );
    let loaded = manager.load_items().unwrap();
    let ids: Vec<u128> = loaded.high_priority.iter().map(|i| i.id).collect();
    assert_eq!(ids, vec![i2.id, i3.id]);
    assert!(loaded.low_priority.is_empty());
}

#[test]
fn capability_routing_skips_unmatched_messages() {
    let mut qs = QueueServer::new().unwrap();
    qs.enqueue(b"for-x".to_vec(), Priority::High, caps(vec!["x"]))
        .unwrap();
    qs.enqueue(b"for-y".to_vec(), Priority::High, caps(vec!["y"]))
        .unwrap();

    // A consumer with only "y" gets the second message first.
    assert_eq!(
        qs.pop(caps(vec!["y"]), false).unwrap().unwrap().data,
        b"for-y".to_vec()
    );
    // The skipped message is still owed to an "x" consumer.
    assert_eq!(
        qs.pop(caps(vec!["x"]), false).unwrap().unwrap().data,
        b"for-x".to_vec()
    );
}
