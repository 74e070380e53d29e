use taskbroker::models::{Priority, QueueItem, Tags};
use taskbroker::queue::Queue;

fn tags_of(names: Vec<&str>) -> Tags {
    Tags::from(names.into_iter().map(|s| s.to_string()).collect::<Vec<String>>())
}

#[test]
fn multiple_tags() {
    let item = QueueItem::new(
        b"foo".to_vec(),
        tags_of(vec!["bar", "foo"]),
        Priority::High,
    );
    assert!(item.can_be_handled_by(&tags_of(vec!["bar", "foo"])));
    assert!(item.can_be_handled_by(&tags_of(vec!["foo", "bar"])));
}

#[test]
fn single_bar() {
    let item = QueueItem::new(b"foo".to_vec(), tags_of(vec!["bar"]), Priority::High);
    assert!(item.can_be_handled_by(&tags_of(vec!["bar", "foo"])));
}

#[test]
fn single_foo() {
    let item = QueueItem::new(b"foo".to_vec(), tags_of(vec!["foo"]), Priority::High);
    assert!(item.can_be_handled_by(&tags_of(vec!["foo", "bar"])));
}

#[test]
fn no_tags_on_item() {
    let item = QueueItem::new(b"foo".to_vec(), Tags::new(), Priority::High);
    assert!(item.can_be_handled_by(&tags_of(vec!["foo"])));
}

#[test]
fn no_tags_in_request() {
    let item = QueueItem::new(b"foo".to_vec(), tags_of(vec!["foo"]), Priority::High);
    assert!(!item.can_be_handled_by(&Tags::new()));
}

#[test]
fn more_tags_required_than_available() {
    let item = QueueItem::new(b"foo".to_vec(), Tags::new(), Priority::High);
    assert!(item.can_be_handled_by(&Tags::new()));
}

#[test]
fn tag_mismatch() {
    let item = QueueItem::new(b"foo".to_vec(), tags_of(vec!["bar"]), Priority::High);
    assert!(!item.can_be_handled_by(&tags_of(vec!["foo"])));
}

#[test]
fn can_add_and_remove() {
    let mut q = Queue::new();

    q.enqueue(QueueItem::new(b"foo".to_vec(), Tags::new(), Priority::High))
        .unwrap();
    q.enqueue(QueueItem::new(b"bar".to_vec(), Tags::new(), Priority::High))
        .unwrap();
    q.enqueue(QueueItem::new(b"baz".to_vec(), Tags::new(), Priority::High))
        .unwrap();

    assert_eq!(q.pop(&Tags::new()).unwrap().unwrap().data, b"foo".to_vec());
    assert_eq!(q.pop(&Tags::new()).unwrap().unwrap().data, b"bar".to_vec());
    assert_eq!(q.pop(&Tags::new()).unwrap().unwrap().data, b"baz".to_vec());
}

#[test]
fn skipped_messages_survive_an_unmatched_pop() {
    let mut q = Queue::new();

    q.enqueue(QueueItem::new(b"a".to_vec(), tags_of(vec!["x"]), Priority::High))
        .unwrap();
    q.enqueue(QueueItem::new(b"b".to_vec(), tags_of(vec!["y"]), Priority::High))
        .unwrap();

    assert!(q.pop(&tags_of(vec!["z"])).unwrap().is_none());

    assert_eq!(q.pop(&tags_of(vec!["x"])).unwrap().unwrap().data, b"a".to_vec());
    assert_eq!(q.pop(&tags_of(vec!["y"])).unwrap().unwrap().data, b"b".to_vec());
}

#[test]
fn get_content_reads_without_removing() {
    let mut q = Queue::new();
    q.enqueue(QueueItem::new(b"one".to_vec(), Tags::new(), Priority::High))
        .unwrap();
    q.enqueue(QueueItem::new(b"two".to_vec(), Tags::new(), Priority::High))
        .unwrap();

    let content = q.get_content().unwrap();
    assert_eq!(content.len(), 2);
    assert_eq!(content[0].data, b"one".to_vec());
    assert_eq!(content[1].data, b"two".to_vec());

    assert_eq!(q.pop(&Tags::new()).unwrap().unwrap().data, b"one".to_vec());
}
