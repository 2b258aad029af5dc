use moq::announce::{reconstruct, AnnouncedProducer};
use moq::error::ServeError;

#[test]
fn late_joiner_sees_current_announcements() {
    let mut producer = AnnouncedProducer::new();
    producer.announce("a".to_string()).unwrap();
    producer.announce("b".to_string()).unwrap();
    assert_eq!(producer.announce("a".to_string()), Err(ServeError::Duplicate));
    producer.unannounce(&"a".to_string()).unwrap();
    assert_eq!(producer.unannounce(&"a".to_string()), Err(ServeError::NotFound));
    producer.announce("c".to_string()).unwrap();
    producer.announce("a".to_string()).unwrap();
    assert_eq!(producer.len(), 5);
    let mut active = reconstruct(&producer);
    active.sort();
    assert_eq!(active, vec!["a".to_string(), "b".to_string(), "c".to_string()]);
}

#[test]
fn empty_log_reconstructs_nothing() {
    let producer = AnnouncedProducer::new();
    assert!(reconstruct(&producer).is_empty());
}
