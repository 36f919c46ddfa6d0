use datavalues::watcher::FilterType;
use datavalues::watcher::WatcherStream;

#[test]
fn watcher_stream_keeps_attributes() {
    let s = WatcherStream::new(7, FilterType::Update, 42u32, "a".to_string(), "z".to_string());
    assert_eq!(s.watcher.id, 7);
    assert_eq!(s.watcher.filter_type, FilterType::Update);
    assert_eq!(s.watcher.key, "a");
    assert_eq!(s.watcher.key_end, "z");
    assert_eq!(*s.tx(), 42);
}
