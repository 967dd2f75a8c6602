use crab_gallery::app::{PreviewCache, PreviewKey};

fn numbered(n: usize) -> PreviewKey {
    PreviewKey { path: n.to_string(), width: 8, mtime_secs: 1 }
}

fn full() -> PreviewCache {
    let mut cache = PreviewCache::default();
    for n in 0..PreviewCache::CAPACITY {
        cache.insert(numbered(n), vec![(n % 251) as u8]);
    }
    cache
}

#[test]
fn full_cache_drops_the_oldest() {
    let mut cache = full();
    cache.insert(numbered(5000), vec![7]);
    assert_eq!(cache.get(&numbered(0)), None);
    assert_eq!(cache.get(&numbered(1)), Some(&[1][..]));
    assert_eq!(cache.get(&numbered(5000)), Some(&[7][..]));
}

#[test]
fn replacing_in_a_full_cache_drops_nothing() {
    let mut cache = full();
    cache.insert(numbered(0), vec![9]);
    cache.insert(numbered(5000), vec![7]);
    assert_eq!(cache.get(&numbered(0)), Some(&[9][..]));
    assert_eq!(cache.get(&numbered(1)), None);
    assert_eq!(cache.get(&numbered(2)), Some(&[2][..]));
}

#[test]
fn used_entry_survives_the_least_recently_used() {
    let mut cache = full();
    assert_eq!(cache.get(&numbered(0)), Some(&[0][..]));
    assert_eq!(cache.get(&numbered(9000)), None);
    cache.insert(numbered(5000), vec![7]);
    assert_eq!(cache.get(&numbered(0)), Some(&[0][..]));
    assert_eq!(cache.get(&numbered(1)), None);
    assert_eq!(cache.get(&numbered(5000)), Some(&[7][..]));
}

#[test]
fn every_part_of_the_key_counts() {
    let mut cache = PreviewCache::new();
    let key = PreviewKey { path: "a".into(), width: 8, mtime_secs: 1 };
    cache.insert(key.clone(), vec![1]);
    assert!(key == key.clone());
    for other in [
        PreviewKey { path: "b".into(), ..key.clone() },
        PreviewKey { width: 9, ..key.clone() },
        PreviewKey { mtime_secs: 2, ..key.clone() },
    ] {
        assert!(key != other);
        assert_eq!(cache.get(&other), None);
    }
    assert_eq!(cache.get(&key), Some(&[1][..]));
}

#[test]
fn modified_files_miss() {
    let mut cache = full();
    let old = PreviewKey { path: "p".into(), width: 320, mtime_secs: 1 };
    let new = PreviewKey { mtime_secs: 2, ..old.clone() };
    cache.insert(old.clone(), vec![1]);
    assert_eq!(cache.get(&old), Some(&[1][..]));
    assert_eq!(cache.get(&new), None);
    cache.insert(new.clone(), vec![2]);
    assert_eq!(cache.get(&old), Some(&[1][..]));
    assert_eq!(cache.get(&new), Some(&[2][..]));
}
