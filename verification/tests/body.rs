use crap_cache::body::{IncomingTeeSink, Polled};
use crap_cache::cache::MemCache;
use hyper::body::Bytes;

fn data(bytes: &'static [u8]) -> Polled<String, u8> {
    Polled::Data(Bytes::from_static(bytes))
}

#[test]
fn passes_everything_on() {
    let mut tee = IncomingTeeSink::new(b"200\n-\n".to_vec(), "k".to_string());
    assert!(matches!(tee.poll_frame::<String, u8>(Polled::Pending), Polled::Pending));
    match tee.poll_frame(data(b"abc")) {
        Polled::Data(bytes) => assert_eq!(bytes, Bytes::from_static(b"abc")),
        _ => panic!("data became something else"),
    }
    assert!(matches!(tee.poll_frame::<String, u8>(Polled::Other(7)), Polled::Other(7)));
    match tee.poll_frame::<String, u8>(Polled::Failed("lost".to_string())) {
        Polled::Failed(error) => assert_eq!(error, "lost"),
        _ => panic!("an error became something else"),
    }
    assert!(matches!(tee.poll_frame::<String, u8>(Polled::End), Polled::End));
}

#[test]
fn stores_head_and_data() {
    let mut cache = MemCache::new(2);
    let mut tee = IncomingTeeSink::new(b"200\n-\n".to_vec(), "k".to_string());
    tee.poll_frame(data(b"ab"));
    tee.poll_frame::<String, u8>(Polled::Pending);
    tee.poll_frame(data(b""));
    tee.poll_frame::<String, u8>(Polled::Other(1));
    tee.poll_frame(data(b"cde"));
    tee.finish(true, &mut cache);
    assert_eq!(cache.get_key("k"), Some(b"200\n-\nabcde".to_vec()));
}

#[test]
fn stores_a_head_without_data() {
    let mut cache = MemCache::new(2);
    let mut tee = IncomingTeeSink::new(b"204\n-\n".to_vec(), "k".to_string());
    tee.finish(true, &mut cache);
    assert_eq!(cache.get_key("k"), Some(b"204\n-\n".to_vec()));
}

#[test]
fn stores_nothing_of_a_broken_body() {
    let mut cache = MemCache::new(2);
    let mut tee = IncomingTeeSink::new(b"200\n-\n".to_vec(), "k".to_string());
    tee.poll_frame(data(b"ab"));
    tee.finish(false, &mut cache);
    assert_eq!(cache.get_key("k"), None);
}
