use crab_gallery::app::{PreviewCache, PreviewKey};
use crab_gallery::sanitize_filename;

#[test]
fn sanitize_strips_paths_and_bad_chars() {
    assert_eq!(sanitize_filename("photo.jpg"), "photo.jpg");
    assert_eq!(sanitize_filename("../../etc/passwd"), "passwd");
    assert_eq!(sanitize_filename("my cool photo (1).JPG"), "my_cool_photo__1_.JPG");
    assert_eq!(sanitize_filename(""), "upload");
}

fn key(path: &str) -> PreviewKey {
    PreviewKey { path: path.into(), width: 100, mtime_secs: 0 }
}

#[test]
fn cache_stores_and_replaces() {
    let mut cache = PreviewCache::new();
    assert!(cache.get(&key("a")).is_none());
    cache.insert(key("a"), vec![1]);
    cache.insert(key("b"), vec![2]);
    assert_eq!(cache.get(&key("a")), Some(&[1][..]));
    assert_eq!(cache.get(&key("b")), Some(&[2][..]));
    // Re-inserting replaces bytes and does not grow the cache.
    cache.insert(key("a"), vec![9]);
    assert_eq!(cache.get(&key("a")), Some(&[9][..]));
}
